use build_analyzer::elf_file::ProgramHeader;
use build_analyzer::ranges::segments_to_ranges;

fn seg(vaddr: u64, memsz: u64) -> ProgramHeader {
    ProgramHeader {
        p_type: 1,
        p_offset: 0,
        p_vaddr: vaddr,
        p_paddr: vaddr,
        p_filesz: memsz,
        p_memsz: memsz,
        p_flags: 0,
        p_align: 4,
    }
}

#[test]
fn no_segments_give_no_ranges() {
    assert_eq!(segments_to_ranges(&[]), vec![]);
}

#[test]
fn ranges_are_sorted_by_start() {
    let r = segments_to_ranges(&[seg(0x300, 0x10), seg(0x100, 0x10)]);
    assert_eq!(r, vec![(0x100, 0x110), (0x300, 0x310)]);
}

#[test]
fn overlapping_and_touching_ranges_merge() {
    let r = segments_to_ranges(&[seg(0x100, 0x100), seg(0x180, 0x100), seg(0x280, 0x20)]);
    assert_eq!(r, vec![(0x100, 0x2A0)]);
}

#[test]
fn a_range_inside_another_keeps_the_outer_end() {
    let r = segments_to_ranges(&[seg(0x100, 0x1000), seg(0x200, 0x10)]);
    assert_eq!(r, vec![(0x100, 0x1100)]);
}

#[test]
fn range_ends_saturate() {
    let r = segments_to_ranges(&[seg(u64::MAX - 1, 10)]);
    assert_eq!(r, vec![(u64::MAX - 1, u64::MAX)]);
}

#[test]
fn empty_segments_stay_unless_absorbed() {
    let r = segments_to_ranges(&[seg(0x500, 0), seg(0x100, 0x10), seg(0x108, 0)]);
    assert_eq!(r, vec![(0x100, 0x110), (0x500, 0x500)]);
}

#[test]
fn collapsed_ranges_cover_exactly_the_segments() {
    let segs = [seg(0x40, 0x20), seg(0x10, 0x10), seg(0x55, 0x30), seg(0x200, 0x8), seg(0x1F0, 0x10)];
    let r = segments_to_ranges(&segs);
    for addr in 0u64..0x300 {
        let in_seg = segs.iter().any(|p| p.p_vaddr <= addr && addr < p.p_vaddr + p.p_memsz);
        let in_range = r.iter().any(|(s, e)| *s <= addr && addr < *e);
        assert_eq!(in_seg, in_range, "address {addr:#x}");
    }
    for w in r.windows(2) {
        assert!(w[0].1 < w[1].0);
    }
}

#[test]
fn header_order_does_not_matter() {
    let a = [seg(0x300, 0x10), seg(0x100, 0x210), seg(0x50, 0x8), seg(0x100, 0x20)];
    let mut b = a;
    b.reverse();
    b[0].p_flags = 7;
    b[1].p_offset = 0x99;
    assert_eq!(segments_to_ranges(&a), segments_to_ranges(&b));
    assert_eq!(segments_to_ranges(&a), vec![(0x50, 0x58), (0x100, 0x310)]);
}
