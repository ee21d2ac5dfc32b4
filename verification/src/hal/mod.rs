//! What the kernel learns of the machine: processor identity and features, the PCI
//! devices, and the ACPI tables.
use vstd::prelude::*;

pub mod acpi;
pub mod cpu;
pub mod pci;

verus! {

/// The processor's maker, from its identification string.
#[derive(Clone, Copy, PartialEq, Eq, Structural, Debug)]
pub enum CpuVendor {
    Intel,
    Amd,
    Unknown,
}

/// Features the kernel looks for.
#[derive(Clone, Copy, PartialEq, Eq, Structural, Debug, Default)]
pub struct CpuFeatures {
    pub has_tsc: bool,
    pub has_rdrand: bool,
    pub has_aes_ni: bool,
    pub has_avx: bool,
    pub has_pae: bool,
    pub has_sse4_2: bool,
}

#[derive(Clone, Copy, PartialEq, Eq, Structural, Debug)]
pub struct HardwareInfo {
    pub cpu_vendor: CpuVendor,
    pub cpu_features: CpuFeatures,
    pub logical_cpus: u32,
}

/// What the processor reports, from the answers of CPUID leaf 0, leaf 1 and leaf
/// `0x8000_0001`.
pub fn init(vendor: cpu::CpuidResult, basic: cpu::CpuidResult, extended: cpu::CpuidResult) -> (info: HardwareInfo)
    ensures
        info.cpu_vendor == cpu::spec_vendor(vendor),
        info.cpu_features == cpu::spec_features(basic, extended),
        info.logical_cpus == cpu::spec_logical_cpus(basic),
{
    HardwareInfo {
        cpu_vendor: cpu::detect_vendor(vendor),
        cpu_features: cpu::detect_features(basic, extended),
        logical_cpus: cpu::count_logical_cpus(basic),
    }
}

} // verus!
