//! Processor identification from CPUID answers.
use vstd::prelude::*;
use super::{CpuFeatures, CpuVendor};

verus! {

pub const FEATURE_INFO: u32 = 1;
pub const EXTENDED_FEATURE_INFO: u32 = 0x8000_0001;
pub const TSC: u32 = 0x10;
pub const SSE4_2: u32 = 0x0010_0000;
pub const AES_NI: u32 = 0x0200_0000;
pub const AVX: u32 = 0x1000_0000;
pub const RDRAND: u32 = 0x4000_0000;
pub const PAE: u32 = 0x40;

/// The four registers one CPUID leaf answers with.
#[derive(Clone, Copy, PartialEq, Eq, Structural, Debug)]
pub struct CpuidResult {
    pub eax: u32,
    pub ebx: u32,
    pub ecx: u32,
    pub edx: u32,
}

/// The little-endian bytes of `value`.
pub open spec fn le_bytes(value: u32) -> Seq<u8> {
    seq![(value % 256) as u8, ((value / 256) % 256) as u8, ((value / 65536) % 256) as u8, (value / 16777216) as u8]
}

/// The twelve-byte vendor string: EBX, EDX, ECX of leaf 0, each little-endian.
pub open spec fn vendor_bytes(leaf0: CpuidResult) -> Seq<u8> {
    le_bytes(leaf0.ebx) + le_bytes(leaf0.edx) + le_bytes(leaf0.ecx)
}

pub open spec fn genuine_intel() -> Seq<u8> {
    seq![0x47u8, 0x65, 0x6e, 0x75, 0x69, 0x6e, 0x65, 0x49, 0x6e, 0x74, 0x65, 0x6c]
}

pub open spec fn authentic_amd() -> Seq<u8> {
    seq![0x41u8, 0x75, 0x74, 0x68, 0x65, 0x6e, 0x74, 0x69, 0x63, 0x41, 0x4d, 0x44]
}

pub open spec fn spec_vendor(leaf0: CpuidResult) -> CpuVendor {
    if vendor_bytes(leaf0) == genuine_intel() {
        CpuVendor::Intel
    } else if vendor_bytes(leaf0) == authentic_amd() {
        CpuVendor::Amd
    } else {
        CpuVendor::Unknown
    }
}

fn put_le(vendor: &mut [u8; 12], at: usize, value: u32)
    requires
        at + 4 <= 12,
    ensures
        final(vendor)@ == old(vendor)@.subrange(0, at as int) + le_bytes(value) + old(vendor)@.subrange(at + 4, 12),
{
    vendor[at] = (value % 256) as u8;
    vendor[at + 1] = ((value / 256) % 256) as u8;
    vendor[at + 2] = ((value / 65536) % 256) as u8;
    vendor[at + 3] = (value / 16777216) as u8;
    proof {
        assert(vendor@ =~= old(vendor)@.subrange(0, at as int) + le_bytes(value) + old(vendor)@.subrange(at + 4, 12));
    }
}

fn bytes_match(vendor: &[u8; 12], expected: &[u8; 12]) -> (same: bool)
    ensures
        same == (vendor@ == expected@),
{
    let mut i: usize = 0;
    while i < 12
        invariant
            i <= 12,
            forall|k: int| 0 <= k < i ==> vendor@[k] == expected@[k],
        decreases 12 - i,
    {
        if vendor[i] != expected[i] {
            return false;
        }
        i = i + 1;
    }
    proof {
        assert(vendor@ =~= expected@);
    }
    true
}

/// The processor's maker, from the vendor string of CPUID leaf 0.
pub fn detect_vendor(leaf0: CpuidResult) -> (vendor: CpuVendor)
    ensures
        vendor == spec_vendor(leaf0),
{
    let mut bytes = [0u8; 12];
    put_le(&mut bytes, 0, leaf0.ebx);
    put_le(&mut bytes, 4, leaf0.edx);
    put_le(&mut bytes, 8, leaf0.ecx);
    proof {
        assert(bytes@ =~= vendor_bytes(leaf0));
    }
    let intel: [u8; 12] = [0x47, 0x65, 0x6e, 0x75, 0x69, 0x6e, 0x65, 0x49, 0x6e, 0x74, 0x65, 0x6c];
    let amd: [u8; 12] = [0x41, 0x75, 0x74, 0x68, 0x65, 0x6e, 0x74, 0x69, 0x63, 0x41, 0x4d, 0x44];
    proof {
        assert(intel@ =~= genuine_intel());
        assert(amd@ =~= authentic_amd());
    }
    if bytes_match(&bytes, &intel) {
        CpuVendor::Intel
    } else if bytes_match(&bytes, &amd) {
        CpuVendor::Amd
    } else {
        CpuVendor::Unknown
    }
}

pub open spec fn spec_features(basic: CpuidResult, extended: CpuidResult) -> CpuFeatures {
    CpuFeatures {
        has_tsc: basic.edx & TSC != 0,
        has_rdrand: basic.ecx & RDRAND != 0,
        has_aes_ni: basic.ecx & AES_NI != 0,
        has_avx: basic.ecx & AVX != 0,
        has_pae: extended.edx & PAE != 0,
        has_sse4_2: basic.ecx & SSE4_2 != 0,
    }
}

/// The features, from the answers of leaf 1 and leaf `0x8000_0001`.
pub fn detect_features(basic: CpuidResult, extended: CpuidResult) -> (features: CpuFeatures)
    ensures
        features == spec_features(basic, extended),
{
    CpuFeatures {
        has_tsc: basic.edx & TSC != 0,
        has_rdrand: basic.ecx & RDRAND != 0,
        has_aes_ni: basic.ecx & AES_NI != 0,
        has_avx: basic.ecx & AVX != 0,
        has_pae: extended.edx & PAE != 0,
        has_sse4_2: basic.ecx & SSE4_2 != 0,
    }
}

/// The logical processor count of leaf 1 (EBX bits 16 to 23), at least one.
pub open spec fn spec_logical_cpus(basic: CpuidResult) -> u32 {
    let count = (basic.ebx >> 16) & 0xff;
    if count >= 1 {
        count
    } else {
        1
    }
}

pub fn count_logical_cpus(basic: CpuidResult) -> (count: u32)
    ensures
        count == spec_logical_cpus(basic),
{
    let count = (basic.ebx >> 16) & 0xff;
    if count >= 1 {
        count
    } else {
        1
    }
}

} // verus!
