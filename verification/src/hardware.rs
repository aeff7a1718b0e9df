//! What the machine's hardware looks like to the optimizer: GPUs with their
//! dedicated video memory, and the rest of the snapshot shown to the user.
//! The probes themselves (sysfs, NVML, DXGI, sysinfo) hand their raw values
//! to the functions here.
use vstd::prelude::*;
use crate::text::{
    append_all, chars_of, decimal, decimal_vec, owned, parse_unsigned, parse_unsigned_vec, str_vec,
    string_of, trim, trim_vec,
};

verus! {

/// How far a GPU's reported video memory can be trusted.
#[derive(Debug, Clone, Copy, PartialEq, Eq, Structural)]
pub enum HardwareConfidence {
    High,
    Medium,
    Low,
}

#[derive(Debug, Clone, Copy, PartialEq, Eq, Structural)]
pub enum GpuVendor {
    Amd,
    Intel,
    Nvidia,
    Microsoft,
    Unknown,
}

/// A GPU as a probe reported it.
#[derive(Debug, Clone, PartialEq, Eq)]
pub struct GpuInfo {
    pub name: String,
    pub vendor: GpuVendor,
    pub dedicated_vram_mb: Option<u32>,
    pub shared_memory_mb: Option<u32>,
    pub source: String,
    pub confidence: HardwareConfidence,
}

pub struct SGpuInfo {
    pub name: Seq<char>,
    pub vendor: GpuVendor,
    pub dedicated_vram_mb: Option<u32>,
    pub shared_memory_mb: Option<u32>,
    pub source: Seq<char>,
    pub confidence: HardwareConfidence,
}

impl View for GpuInfo {
    type V = SGpuInfo;

    open spec fn view(&self) -> SGpuInfo {
        SGpuInfo {
            name: self.name@,
            vendor: self.vendor,
            dedicated_vram_mb: self.dedicated_vram_mb,
            shared_memory_mb: self.shared_memory_mb,
            source: self.source@,
            confidence: self.confidence,
        }
    }
}

pub open spec fn gpus_view(v: Seq<GpuInfo>) -> Seq<SGpuInfo> {
    v.map_values(|g: GpuInfo| g@)
}

/// The machine as the app shows it.
#[derive(Debug, Clone, PartialEq, Eq)]
pub struct HardwareSnapshot {
    pub gpus: Vec<GpuInfo>,
    pub system_ram_mb: Option<u64>,
    pub cpu_name: Option<String>,
    pub logical_cores: Option<usize>,
    pub os_runtime: String,
}

pub fn clone_gpu(g: &GpuInfo) -> (r: GpuInfo)
    ensures
        r@ == g@,
{
    GpuInfo {
        name: g.name.clone(),
        vendor: g.vendor,
        dedicated_vram_mb: g.dedicated_vram_mb,
        shared_memory_mb: g.shared_memory_mb,
        source: g.source.clone(),
        confidence: g.confidence,
    }
}

proof fn lemma_gpus_view_push(v: Seq<GpuInfo>, x: GpuInfo)
    ensures
        gpus_view(v.push(x)) == gpus_view(v).push(x@),
{
    assert(gpus_view(v.push(x)) =~= gpus_view(v).push(x@));
}

// ---------------------------------------------------------------------------
// Sizes.

pub open spec fn mib(bytes: u64) -> nat {
    (bytes / 1024 / 1024) as nat
}

/// Whole mebibytes in `bytes`.
pub fn bytes_to_mb_u64(bytes: u64) -> (r: u64)
    ensures
        r == mib(bytes),
{
    bytes / 1024 / 1024
}

/// Whole mebibytes in `bytes`, when they fit in a `u32`.
pub fn bytes_to_mb_u32(bytes: u64) -> (r: Option<u32>)
    ensures
        match r {
            Some(v) => v == mib(bytes),
            None => mib(bytes) > u32::MAX,
        },
{
    let mb = bytes_to_mb_u64(bytes);
    if mb <= u32::MAX as u64 {
        Some(mb as u32)
    } else {
        None
    }
}

// ---------------------------------------------------------------------------
// Vendors.

pub open spec fn vendor_of_id(vendor_id: u32) -> GpuVendor {
    if vendor_id == 0x1002 {
        GpuVendor::Amd
    } else if vendor_id == 0x8086 {
        GpuVendor::Intel
    } else if vendor_id == 0x10de {
        GpuVendor::Nvidia
    } else if vendor_id == 0x1414 {
        GpuVendor::Microsoft
    } else {
        GpuVendor::Unknown
    }
}

/// The vendor of a PCI vendor id.
pub fn vendor_from_id(vendor_id: u32) -> (r: GpuVendor)
    ensures
        r == vendor_of_id(vendor_id),
{
    if vendor_id == 0x1002 {
        GpuVendor::Amd
    } else if vendor_id == 0x8086 {
        GpuVendor::Intel
    } else if vendor_id == 0x10de {
        GpuVendor::Nvidia
    } else if vendor_id == 0x1414 {
        GpuVendor::Microsoft
    } else {
        GpuVendor::Unknown
    }
}

pub open spec fn vendor_label_spec(vendor: GpuVendor) -> Seq<char> {
    match vendor {
        GpuVendor::Amd => "AMD"@,
        GpuVendor::Intel => "Intel"@,
        GpuVendor::Nvidia => "NVIDIA"@,
        GpuVendor::Microsoft => "Microsoft"@,
        GpuVendor::Unknown => "GPU"@,
    }
}

/// The vendor's name as GPU names show it.
pub fn vendor_label(vendor: GpuVendor) -> (r: &'static str)
    ensures
        r@ == vendor_label_spec(vendor),
{
    match vendor {
        GpuVendor::Amd => "AMD",
        GpuVendor::Intel => "Intel",
        GpuVendor::Nvidia => "NVIDIA",
        GpuVendor::Microsoft => "Microsoft",
        GpuVendor::Unknown => "GPU",
    }
}

/// A sysfs attribute as the probes read it: the trimmed text, when the file
/// could be read and the text is not blank.
pub open spec fn trimmed_attr(content: Option<Seq<char>>) -> Option<Seq<char>> {
    match content {
        Some(c) => if trim(c).len() == 0 {
            None
        } else {
            Some(trim(c))
        },
        None => None,
    }
}

fn trimmed_attr_vec(content: Option<&str>) -> (r: Option<Vec<char>>)
    ensures
        match r {
            Some(v) => trimmed_attr(
                match content {
                    Some(c) => Some(c@),
                    None => None,
                },
            ) == Some(v@),
            None => trimmed_attr(
                match content {
                    Some(c) => Some(c@),
                    None => None,
                },
            ) is None,
        },
{
    match content {
        None => None,
        Some(c) => {
            let t = trim_vec(&chars_of(c));
            if t.len() == 0 {
                None
            } else {
                Some(t)
            }
        },
    }
}

/// The vendor a sysfs `vendor` file names (its text, if it could be read).
pub open spec fn vendor_of_attr(content: Option<Seq<char>>) -> GpuVendor {
    match trimmed_attr(content) {
        Some(t) => if t == "0x1002"@ {
            GpuVendor::Amd
        } else if t == "0x8086"@ {
            GpuVendor::Intel
        } else if t == "0x10de"@ {
            GpuVendor::Nvidia
        } else {
            GpuVendor::Unknown
        },
        None => GpuVendor::Unknown,
    }
}

pub fn read_vendor(content: Option<&str>) -> (r: GpuVendor)
    ensures
        r == vendor_of_attr(
            match content {
                Some(c) => Some(c@),
                None => None,
            },
        ),
{
    match trimmed_attr_vec(content) {
        None => GpuVendor::Unknown,
        Some(t) => {
            if crate::ini_doc::vec_eq(&t, &chars_of("0x1002")) {
                GpuVendor::Amd
            } else if crate::ini_doc::vec_eq(&t, &chars_of("0x8086")) {
                GpuVendor::Intel
            } else if crate::ini_doc::vec_eq(&t, &chars_of("0x10de")) {
                GpuVendor::Nvidia
            } else {
                GpuVendor::Unknown
            }
        },
    }
}

/// The number a sysfs attribute holds (its text, if it could be read).
pub open spec fn u64_of_attr(content: Option<Seq<char>>) -> Option<u64> {
    match trimmed_attr(content) {
        Some(t) => match parse_unsigned(t, u64::MAX as nat) {
            Some(v) => Some(v as u64),
            None => None,
        },
        None => None,
    }
}

pub fn read_u64(content: Option<&str>) -> (r: Option<u64>)
    ensures
        r == u64_of_attr(
            match content {
                Some(c) => Some(c@),
                None => None,
            },
        ),
{
    match trimmed_attr_vec(content) {
        None => None,
        Some(t) => parse_unsigned_vec(&t, u64::MAX),
    }
}

// ---------------------------------------------------------------------------
// Linux.

pub open spec fn is_ascii_digit(c: char) -> bool {
    48 <= (c as u32) <= 57
}

/// A DRM entry that is a card: `card` followed by one or more digits.
pub open spec fn is_drm_card_name(name: Seq<char>) -> bool {
    &&& name.len() > 4
    &&& name.take(4) == "card"@
    &&& forall|i: int| 4 <= i < name.len() ==> is_ascii_digit(#[trigger] name[i])
}

pub fn is_drm_card(name: &str) -> (b: bool)
    ensures
        b == is_drm_card_name(name@),
{
    let n = chars_of(name);
    proof {
        reveal_strlit("card");
    }
    if n.len() <= 4 {
        return false;
    }
    if !(n[0] == 'c' && n[1] == 'a' && n[2] == 'r' && n[3] == 'd') {
        assert(n@.take(4) != "card"@) by {
            if n@.take(4) == "card"@ {
                assert(n@.take(4)[0] == 'c' && n@.take(4)[1] == 'a' && n@.take(4)[2] == 'r' && n@.take(4)[3] == 'd');
            }
        }
        return false;
    }
    assert(n@.take(4) =~= "card"@);
    let mut i: usize = 4;
    while i < n.len()
        invariant
            4 <= i <= n.len(),
            n@ == name@,
            forall|j: int| 4 <= j < i ==> is_ascii_digit(#[trigger] n@[j]),
        decreases n.len() - i,
    {
        let u = n[i] as u32;
        if !(48 <= u && u <= 57) {
            assert(!is_ascii_digit(n@[i as int]));
            return false;
        }
        i += 1;
    }
    true
}

/// `<vendor label> <card name>`.
pub open spec fn drm_gpu_name(vendor: GpuVendor, card_name: Seq<char>) -> Seq<char> {
    vendor_label_spec(vendor) + " "@ + card_name
}

/// The GPU a DRM card describes, from its name and what reading its
/// `device/vendor` and `device/mem_info_vram_total` files gave; none when
/// the card path has no file name.
pub open spec fn drm_gpu(card_name: Option<Seq<char>>, vendor_file: Option<Seq<char>>, vram_file: Option<Seq<char>>) -> Option<SGpuInfo> {
    let vendor = vendor_of_attr(vendor_file);
    let vram: Option<u32> = match u64_of_attr(vram_file) {
        Some(b) => if mib(b) <= u32::MAX {
            Some(mib(b) as u32)
        } else {
            None
        },
        None => None,
    };
    match card_name {
        None => None,
        Some(n) => Some(
            SGpuInfo {
                name: drm_gpu_name(vendor, n),
                vendor,
                dedicated_vram_mb: vram,
                shared_memory_mb: None,
                source: "Linux DRM sysfs"@,
                confidence: if vram is Some {
                    HardwareConfidence::High
                } else {
                    HardwareConfidence::Low
                },
            },
        ),
    }
}

pub open spec fn opt_str(o: Option<&str>) -> Option<Seq<char>> {
    match o {
        Some(s) => Some(s@),
        None => None,
    }
}

pub fn drm_gpu_from_path(card_name: Option<&str>, vendor_file: Option<&str>, vram_file: Option<&str>) -> (r: Option<GpuInfo>)
    ensures
        match r {
            Some(g) => drm_gpu(opt_str(card_name), opt_str(vendor_file), opt_str(vram_file)) == Some(g@),
            None => drm_gpu(opt_str(card_name), opt_str(vendor_file), opt_str(vram_file)) is None,
        },
{
    let vendor = read_vendor(vendor_file);
    let vram = match read_u64(vram_file) {
        Some(b) => bytes_to_mb_u32(b),
        None => None,
    };
    let card = match card_name {
        None => return None,
        Some(c) => c,
    };
    let mut name = chars_of(vendor_label(vendor));
    append_all(&mut name, &chars_of(" "));
    append_all(&mut name, &chars_of(card));
    let confidence = if vram.is_some() {
        HardwareConfidence::High
    } else {
        HardwareConfidence::Low
    };
    Some(
        GpuInfo {
            name: string_of(&name),
            vendor,
            dedicated_vram_mb: vram,
            shared_memory_mb: None,
            source: owned("Linux DRM sysfs"),
            confidence,
        },
    )
}

/// `NVIDIA GPU <index>`, the name of a device whose name could not be read.
pub open spec fn nvml_fallback_name(index: u32) -> Seq<char> {
    "NVIDIA GPU "@ + decimal(index as nat)
}

/// The GPU NVML reports at `index`, from its name and total memory in bytes
/// (each if it could be read).
pub open spec fn nvml_gpu_spec(index: u32, name: Option<Seq<char>>, total_memory: Option<u64>) -> SGpuInfo {
    let vram: Option<u32> = match total_memory {
        Some(b) => if mib(b) <= u32::MAX {
            Some(mib(b) as u32)
        } else {
            None
        },
        None => None,
    };
    SGpuInfo {
        name: match name {
            Some(n) => n,
            None => nvml_fallback_name(index),
        },
        vendor: GpuVendor::Nvidia,
        dedicated_vram_mb: vram,
        shared_memory_mb: None,
        source: "NVIDIA NVML"@,
        confidence: if vram is Some {
            HardwareConfidence::High
        } else {
            HardwareConfidence::Low
        },
    }
}

pub fn nvml_gpu(index: u32, name: Option<String>, total_memory: Option<u64>) -> (r: GpuInfo)
    ensures
        r@ == nvml_gpu_spec(
            index,
            match name {
                Some(n) => Some(n@),
                None => None,
            },
            total_memory,
        ),
{
    let vram = match total_memory {
        Some(b) => bytes_to_mb_u32(b),
        None => None,
    };
    let name = match name {
        Some(n) => n,
        None => {
            let mut m = chars_of("NVIDIA GPU ");
            append_all(&mut m, &decimal_vec(index as u128));
            string_of(&m)
        },
    };
    let confidence = if vram.is_some() {
        HardwareConfidence::High
    } else {
        HardwareConfidence::Low
    };
    GpuInfo {
        name,
        vendor: GpuVendor::Nvidia,
        dedicated_vram_mb: vram,
        shared_memory_mb: None,
        source: owned("NVIDIA NVML"),
        confidence,
    }
}

pub open spec fn not_nvidia(gs: Seq<SGpuInfo>) -> spec_fn(int) -> bool {
    |i: int| gs[i].vendor != GpuVendor::Nvidia
}

/// The GPUs on Linux: the DRM cards, except that when NVML reports any GPU,
/// NVIDIA cards come from NVML instead.
pub open spec fn linux_gpus(drm: Seq<SGpuInfo>, nvml: Seq<SGpuInfo>) -> Seq<SGpuInfo> {
    if nvml.len() == 0 {
        drm
    } else {
        crate::seq_util::filter_by(drm, not_nvidia(drm)) + nvml
    }
}

pub fn detect_linux_gpus(drm_gpus: Vec<GpuInfo>, nvml_gpus: Vec<GpuInfo>) -> (r: Vec<GpuInfo>)
    ensures
        gpus_view(r@) == linux_gpus(gpus_view(drm_gpus@), gpus_view(nvml_gpus@)),
{
    if nvml_gpus.len() == 0 {
        return drm_gpus;
    }
    let ghost dv = gpus_view(drm_gpus@);
    let mut out: Vec<GpuInfo> = Vec::new();
    let mut i: usize = 0;
    assert(gpus_view(out@) =~= Seq::<SGpuInfo>::empty());
    while i < drm_gpus.len()
        invariant
            i <= drm_gpus.len(),
            dv == gpus_view(drm_gpus@),
            gpus_view(out@) == crate::seq_util::filter_prefix(dv, not_nvidia(dv), i as int),
        decreases drm_gpus.len() - i,
    {
        if drm_gpus[i].vendor != GpuVendor::Nvidia {
            let g = clone_gpu(&drm_gpus[i]);
            proof {
                lemma_gpus_view_push(out@, g);
            }
            out.push(g);
        }
        i += 1;
    }
    let ghost kept = gpus_view(out@);
    let mut j: usize = 0;
    while j < nvml_gpus.len()
        invariant
            j <= nvml_gpus.len(),
            gpus_view(out@) =~= kept + gpus_view(nvml_gpus@).take(j as int),
        decreases nvml_gpus.len() - j,
    {
        let g = clone_gpu(&nvml_gpus[j]);
        proof {
            lemma_gpus_view_push(out@, g);
            assert(gpus_view(nvml_gpus@).take(j + 1) =~= gpus_view(nvml_gpus@).take(j as int).push(g@));
        }
        out.push(g);
        j += 1;
    }
    assert(gpus_view(nvml_gpus@).take(nvml_gpus.len() as int) =~= gpus_view(nvml_gpus@));
    out
}

// ---------------------------------------------------------------------------
// Windows.

pub const DXGI_ADAPTER_FLAG_SOFTWARE: u32 = 2;

/// The GPU a DXGI adapter description gives: its name, vendor id, video
/// and shared memory in bytes, and flags. A software adapter, or one whose
/// video memory is unknown, is of low confidence.
pub open spec fn dxgi_gpu_spec(name: Seq<char>, vendor_id: u32, dedicated_bytes: u64, shared_bytes: u64, flags: u32) -> SGpuInfo {
    let vram: Option<u32> = if mib(dedicated_bytes) <= u32::MAX {
        Some(mib(dedicated_bytes) as u32)
    } else {
        None
    };
    SGpuInfo {
        name,
        vendor: vendor_of_id(vendor_id),
        dedicated_vram_mb: vram,
        shared_memory_mb: if mib(shared_bytes) <= u32::MAX {
            Some(mib(shared_bytes) as u32)
        } else {
            None
        },
        source: "Windows DXGI"@,
        confidence: if flags & DXGI_ADAPTER_FLAG_SOFTWARE != 0 || vram is None {
            HardwareConfidence::Low
        } else {
            HardwareConfidence::High
        },
    }
}

pub fn dxgi_gpu(name: String, vendor_id: u32, dedicated_bytes: u64, shared_bytes: u64, flags: u32) -> (r: GpuInfo)
    ensures
        r@ == dxgi_gpu_spec(name@, vendor_id, dedicated_bytes, shared_bytes, flags),
{
    let is_software = flags & DXGI_ADAPTER_FLAG_SOFTWARE != 0;
    let vram = bytes_to_mb_u32(dedicated_bytes);
    let confidence = if is_software || vram.is_none() {
        HardwareConfidence::Low
    } else {
        HardwareConfidence::High
    };
    GpuInfo {
        name,
        vendor: vendor_from_id(vendor_id),
        dedicated_vram_mb: vram,
        shared_memory_mb: bytes_to_mb_u32(shared_bytes),
        source: owned("Windows DXGI"),
        confidence,
    }
}

/// The text of UTF-16 code units: a high surrogate followed by a low one
/// stands for one character above U+FFFF, every other surrogate for U+FFFD,
/// and every other unit for itself.
pub open spec fn utf16_lossy(units: Seq<u16>) -> Seq<char>
    decreases units.len(),
{
    if units.len() == 0 {
        seq![]
    } else {
        let u = units[0];
        if 0xD800 <= u <= 0xDBFF && units.len() >= 2 && 0xDC00 <= units[1] <= 0xDFFF {
            seq![(0x10000 + (u - 0xD800) * 0x400 + (units[1] - 0xDC00)) as char] + utf16_lossy(units.skip(2))
        } else if 0xD800 <= u <= 0xDFFF {
            seq!['\u{FFFD}'] + utf16_lossy(units.skip(1))
        } else {
            seq![u as char] + utf16_lossy(units.skip(1))
        }
    }
}

/// `String::from_utf16_lossy`: std documents it as decoding UTF-16 with
/// invalid data (an unpaired surrogate) replaced by U+FFFD, as
/// `utf16_lossy` states.
#[verifier::external_body]
fn utf16_lossy_text(units: &[u16]) -> (r: String)
    ensures
        r@ == utf16_lossy(units@),
{
    String::from_utf16_lossy(units)
}

pub open spec fn nul_at(units: Seq<u16>) -> spec_fn(int) -> bool {
    |i: int| units[i] == 0
}

/// The units before the first NUL (all of them when there is none).
pub open spec fn until_nul(units: Seq<u16>) -> Seq<u16> {
    match crate::seq_util::first_where(units.len() as int, nul_at(units)) {
        Some(i) => units.take(i),
        None => units,
    }
}

/// The adapter name of a NUL-terminated UTF-16 description, trimmed.
pub fn wide_name(value: &[u16]) -> (r: String)
    ensures
        r@ == trim(utf16_lossy(until_nul(value@))),
{
    let mut len: usize = 0;
    while len < value.len() && value[len] != 0
        invariant
            len <= value.len(),
            forall|j: int| 0 <= j < len ==> !#[trigger] nul_at(value@)(j),
        decreases value.len() - len,
    {
        len += 1;
    }
    proof {
        if len < value.len() {
            crate::seq_util::lemma_first_where_some(value@.len() as int, nul_at(value@), len as int);
        } else {
            crate::seq_util::lemma_first_where_none(value@.len() as int, nul_at(value@));
            assert(value@.take(len as int) =~= value@);
        }
    }
    let mut head: Vec<u16> = Vec::new();
    let mut k: usize = 0;
    while k < len
        invariant
            k <= len <= value.len(),
            head@ =~= value@.take(k as int),
        decreases len - k,
    {
        head.push(value[k]);
        k += 1;
    }
    let text = utf16_lossy_text(head.as_slice());
    let t = trim_vec(&str_vec(&text));
    string_of(&t)
}

// ---------------------------------------------------------------------------
// The snapshot.

/// A CPU brand as shown: trimmed, and absent when blank.
pub open spec fn cpu_name_of(brand: Option<Seq<char>>) -> Option<Seq<char>> {
    trimmed_attr(brand)
}

/// `<os name> <version>`, or the name alone when the version is unknown or
/// empty.
pub open spec fn os_runtime_of(os_name: Seq<char>, os_version: Option<Seq<char>>) -> Seq<char> {
    match os_version {
        Some(v) => if v.len() > 0 {
            os_name + " "@ + v
        } else {
            os_name
        },
        None => os_name,
    }
}

/// The snapshot from the probes' raw values: the GPUs, the total memory in
/// bytes, the first CPU's brand, the number of CPUs, and the OS name and
/// version (each where the probe could read it).
pub fn hardware_snapshot(
    gpus: Vec<GpuInfo>,
    total_memory_bytes: Option<u64>,
    first_cpu_brand: Option<&str>,
    logical_cores: Option<usize>,
    os_name: &str,
    os_version: Option<&str>,
) -> (r: HardwareSnapshot)
    ensures
        r.gpus@ == gpus@,
        r.system_ram_mb == match total_memory_bytes {
            Some(b) => Some(mib(b) as u64),
            None => None,
        },
        match r.cpu_name {
            Some(c) => cpu_name_of(opt_str(first_cpu_brand)) == Some(c@),
            None => cpu_name_of(opt_str(first_cpu_brand)) is None,
        },
        r.logical_cores == logical_cores,
        r.os_runtime@ == os_runtime_of(os_name@, opt_str(os_version)),
{
    let cpu_name = match trimmed_attr_vec(first_cpu_brand) {
        Some(t) => Some(string_of(&t)),
        None => None,
    };
    let mut os = chars_of(os_name);
    match os_version {
        Some(v) => {
            let vv = chars_of(v);
            if vv.len() > 0 {
                append_all(&mut os, &chars_of(" "));
                append_all(&mut os, &vv);
            }
        },
        None => {},
    }
    let ram = match total_memory_bytes {
        Some(b) => Some(bytes_to_mb_u64(b)),
        None => None,
    };
    HardwareSnapshot { gpus, system_ram_mb: ram, cpu_name, logical_cores, os_runtime: string_of(&os) }
}


/// The GPUs on Linux: without NVML GPUs they are the DRM cards. With them,
/// every DRM card that is not NVIDIA is kept, in its order, no NVIDIA DRM
/// card is, and the NVML GPUs follow, in their order.
pub proof fn lemma_linux_gpus_facts(drm: Seq<SGpuInfo>, nvml: Seq<SGpuInfo>)
    ensures
        nvml.len() == 0 ==> linux_gpus(drm, nvml) == drm,
        nvml.len() > 0 ==> {
            let r = linux_gpus(drm, nvml);
            let k = r.len() - nvml.len();
            &&& 0 <= k
            &&& r.skip(k) == nvml
            &&& forall|i: int| 0 <= i < k ==> (#[trigger] r[i]).vendor != GpuVendor::Nvidia && drm.contains(r[i])
            &&& forall|i: int| 0 <= i < drm.len() && (#[trigger] drm[i]).vendor != GpuVendor::Nvidia ==> r.take(k).contains(drm[i])
            &&& forall|i: int, j: int|
                0 <= i < j < drm.len() && (#[trigger] drm[i]).vendor != GpuVendor::Nvidia && (#[trigger] drm[j]).vendor
                    != GpuVendor::Nvidia ==> crate::seq_util::in_order(r.take(k), drm[i], drm[j])
        },
{
    if nvml.len() > 0 {
        let f = crate::seq_util::filter_by(drm, not_nvidia(drm));
        let r = linux_gpus(drm, nvml);
        let k = r.len() - nvml.len();
        assert(k == f.len());
        assert(r.skip(k) =~= nvml);
        assert(r.take(k) =~= f);
        crate::seq_util::lemma_filter_by_from(drm, not_nvidia(drm));
        assert forall|i: int| 0 <= i < k implies (#[trigger] r[i]).vendor != GpuVendor::Nvidia && drm.contains(r[i]) by {
            assert(r[i] == f[i]);
            assert(crate::seq_util::kept_from(drm, not_nvidia(drm), drm.len() as int, f[i]));
            let m = choose|m: int| 0 <= m < drm.len() && not_nvidia(drm)(m) && drm[m] == f[i];
        }
        assert forall|i: int| 0 <= i < drm.len() && (#[trigger] drm[i]).vendor != GpuVendor::Nvidia implies r.take(k).contains(drm[i]) by {
            crate::seq_util::lemma_filter_by_contains(drm, not_nvidia(drm), i);
        }
        assert forall|i: int, j: int|
            0 <= i < j < drm.len() && (#[trigger] drm[i]).vendor != GpuVendor::Nvidia && (#[trigger] drm[j]).vendor
                != GpuVendor::Nvidia implies crate::seq_util::in_order(r.take(k), drm[i], drm[j]) by {
            assert(crate::seq_util::in_order(drm, drm[i], drm[j]));
            assert forall|m: int| 0 <= m < drm.len() && (drm[m] == drm[i] || drm[m] == drm[j]) implies #[trigger] not_nvidia(drm)(m) by {}
            crate::seq_util::lemma_in_order_filter(drm, not_nvidia(drm), drm[i], drm[j]);
        }
    }
}

} // verus!
