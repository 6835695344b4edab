//! Sv39 address arithmetic on plain 64-bit values.
//!
//! A virtual address has 39 significant bits: three 9-bit page-table indices
//! and a 12-bit offset. A physical address has 56: a 44-bit page number and the
//! same offset.

use vstd::prelude::*;
use crate::config::PAGE_SIZE;

verus! {

/// Number of virtual addresses of Sv39, two to the power 39.
pub const VA_LIMIT: u64 = 0x80_0000_0000;

/// Number of virtual page numbers of Sv39, two to the power 27.
pub const VPN_LIMIT: u64 = 0x800_0000;

/// Number of physical page numbers, two to the power 44.
pub const PPN_LIMIT: u64 = 0x1000_0000_0000;

/// Number of physical addresses, two to the power 56.
pub const PA_LIMIT: u64 = 0x100_0000_0000_0000;

/// Entries in one page-table node.
pub const ENTRIES: u64 = 512;

/// The virtual address that the low 39 bits of `raw` denote.
pub open spec fn spec_virt_addr(raw: u64) -> u64 {
    raw % VA_LIMIT
}

/// Keeps the low 39 bits of `raw`.
#[verifier::when_used_as_spec(spec_virt_addr)]
pub fn virt_addr(raw: u64) -> (va: u64)
    ensures
        va == spec_virt_addr(raw),
        va < VA_LIMIT,
{
    raw % VA_LIMIT
}

/// Number of the frame that holds the physical address in the low 56 bits
/// of `raw`.
pub open spec fn spec_ppn_of(raw: u64) -> u64 {
    (raw % PA_LIMIT) / PAGE_SIZE
}

/// Number of the frame that holds the physical address in the low 56 bits
/// of `raw`.
#[verifier::when_used_as_spec(spec_ppn_of)]
pub fn ppn_of(raw: u64) -> (ppn: u64)
    ensures
        ppn == spec_ppn_of(raw),
        ppn < PPN_LIMIT,
{
    (raw % PA_LIMIT) / PAGE_SIZE
}

/// Offset of an address inside its page.
pub open spec fn spec_page_offset(addr: u64) -> u64 {
    addr % PAGE_SIZE
}

/// Offset of an address inside its page.
#[verifier::when_used_as_spec(spec_page_offset)]
pub fn page_offset(addr: u64) -> (off: u64)
    ensures
        off == spec_page_offset(addr),
        off < PAGE_SIZE,
{
    addr % PAGE_SIZE
}

/// Number of the page that holds an address.
pub open spec fn spec_floor(addr: u64) -> u64 {
    addr / PAGE_SIZE
}

/// Number of the page that holds an address.
#[verifier::when_used_as_spec(spec_floor)]
pub fn floor(addr: u64) -> (page: u64)
    ensures
        page == spec_floor(addr),
        addr < VA_LIMIT ==> page < VPN_LIMIT,
{
    addr / PAGE_SIZE
}

/// Number of the first page that starts at or after an address.
pub open spec fn spec_ceil(addr: u64) -> u64 {
    if addr % PAGE_SIZE == 0 {
        addr / PAGE_SIZE
    } else {
        (addr / PAGE_SIZE + 1) as u64
    }
}

/// Number of the first page that starts at or after an address.
#[verifier::when_used_as_spec(spec_ceil)]
pub fn ceil(addr: u64) -> (page: u64)
    ensures
        page == spec_ceil(addr),
        page >= spec_floor(addr),
        addr < VA_LIMIT ==> page <= VPN_LIMIT,
{
    if addr % PAGE_SIZE == 0 {
        addr / PAGE_SIZE
    } else {
        addr / PAGE_SIZE + 1
    }
}

/// First address of a page.
pub open spec fn spec_page_base(page: u64) -> u64
    recommends
        page < PPN_LIMIT,
{
    (page * PAGE_SIZE) as u64
}

/// First address of a page.
#[verifier::when_used_as_spec(spec_page_base)]
pub fn page_base(page: u64) -> (addr: u64)
    requires
        page < PPN_LIMIT,
    ensures
        addr == spec_page_base(page),
        addr == page * PAGE_SIZE,
{
    page * PAGE_SIZE
}

/// Virtual page number of the page that holds the virtual address in the low
/// 39 bits of `raw`.
pub open spec fn spec_vpn_of(raw: u64) -> u64 {
    (raw % VA_LIMIT) / PAGE_SIZE
}

/// Virtual page number of the page that holds the virtual address in the low
/// 39 bits of `raw`.
#[verifier::when_used_as_spec(spec_vpn_of)]
pub fn vpn_of(raw: u64) -> (vpn: u64)
    ensures
        vpn == spec_vpn_of(raw),
        vpn < VPN_LIMIT,
{
    (raw % VA_LIMIT) / PAGE_SIZE
}

/// Index into the root node: the top nine bits of a virtual page number.
pub open spec fn spec_index2(vpn: u64) -> u64 {
    (vpn / ENTRIES / ENTRIES) % ENTRIES
}

/// Index into a middle node: the middle nine bits of a virtual page number.
pub open spec fn spec_index1(vpn: u64) -> u64 {
    (vpn / ENTRIES) % ENTRIES
}

/// Index into a leaf node: the low nine bits of a virtual page number.
pub open spec fn spec_index0(vpn: u64) -> u64 {
    vpn % ENTRIES
}

/// Index into the root node: the top nine bits of a virtual page number.
#[verifier::when_used_as_spec(spec_index2)]
pub fn index2(vpn: u64) -> (i: u64)
    ensures
        i == spec_index2(vpn),
        i < ENTRIES,
{
    (vpn / ENTRIES / ENTRIES) % ENTRIES
}

/// Index into a middle node: the middle nine bits of a virtual page number.
#[verifier::when_used_as_spec(spec_index1)]
pub fn index1(vpn: u64) -> (i: u64)
    ensures
        i == spec_index1(vpn),
        i < ENTRIES,
{
    (vpn / ENTRIES) % ENTRIES
}

/// Index into a leaf node: the low nine bits of a virtual page number.
#[verifier::when_used_as_spec(spec_index0)]
pub fn index0(vpn: u64) -> (i: u64)
    ensures
        i == spec_index0(vpn),
        i < ENTRIES,
{
    vpn % ENTRIES
}

/// Whether two virtual page numbers have their leaf entries in the same node:
/// they agree in the two upper indices.
pub open spec fn same_table0(a: u64, b: u64) -> bool {
    spec_index2(a) == spec_index2(b) && spec_index1(a) == spec_index1(b)
}

/// Whether two virtual page numbers have the same leaf entry: they agree in
/// the three indices.
pub open spec fn same_entry(a: u64, b: u64) -> bool {
    same_table0(a, b) && spec_index0(a) == spec_index0(b)
}

/// Below the limit, two virtual page numbers share a node of leaf entries
/// exactly if they agree but for the low nine bits, and share the entry
/// exactly if they are equal.
pub proof fn lemma_same_table(a: u64, b: u64)
    requires
        a < VPN_LIMIT,
        b < VPN_LIMIT,
    ensures
        same_table0(a, b) <==> a / ENTRIES == b / ENTRIES,
        same_entry(a, b) <==> a == b,
        spec_index2(a) == spec_index2(b) <==> a / ENTRIES / ENTRIES == b / ENTRIES / ENTRIES,
{
    let (ha, hb) = (a / ENTRIES, b / ENTRIES);
    assert(a == ha * ENTRIES + a % ENTRIES);
    assert(b == hb * ENTRIES + b % ENTRIES);
    assert(ha == (ha / ENTRIES) * ENTRIES + ha % ENTRIES);
    assert(hb == (hb / ENTRIES) * ENTRIES + hb % ENTRIES);
}

} // verus!
