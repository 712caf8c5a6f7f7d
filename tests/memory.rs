use rvkernel::frame::{PhysMemory, FRAME_FREE};
use rvkernel::memory_set::{
    ExecImage, MemorySet, ProgramSegment, MAP_R, MAP_U, MAP_W, MAP_X, TRAMPOLINE_VPN, TRAP_CONTEXT_VPN,
};
use rvkernel::page_table::{MapError, PageTable, PTE_R, PTE_V, PTE_W};

#[test]
fn frames_are_handed_out_and_taken_back() {
    let mut mem = PhysMemory::new(1, 4);
    assert_eq!(mem.available(), 3);
    let a = mem.frame_alloc(7).unwrap();
    let b = mem.frame_alloc(7).unwrap();
    let c = mem.frame_alloc(7).unwrap();
    assert_eq!((a, b, c), (1, 2, 3));
    assert_eq!(mem.frame_alloc(7), None);
    assert!(!mem.frame_dealloc(b, 8));
    assert!(mem.frame_dealloc(b, 7));
    assert!(!mem.frame_dealloc(b, 7));
    assert_eq!(mem.available(), 1);
    assert_eq!(mem.frame_alloc(9), Some(b));
    assert!(!mem.frame_dealloc(0, FRAME_FREE + 1));
}

#[test]
fn allocated_frame_is_zeroed() {
    let mut mem = PhysMemory::new(1, 3);
    let a = mem.frame_alloc(1).unwrap();
    mem.write_byte(a, 10, 0xab);
    assert_eq!(mem.read_byte(a, 10), 0xab);
    assert!(mem.frame_dealloc(a, 1));
    let b = mem.frame_alloc(2).unwrap();
    assert_eq!(b, a);
    assert_eq!(mem.read_byte(b, 10), 0);
}

#[test]
fn page_table_maps_translates_and_unmaps() {
    let mut mem = PhysMemory::new(1, 16);
    let mut pt = PageTable::new(&mut mem, 5).unwrap();
    assert_eq!(pt.translate(0x10), None);
    assert_eq!(pt.map(&mut mem, 0x10, 42, PTE_R | PTE_W), Ok(()));
    let e = pt.translate(0x10).unwrap();
    assert_eq!(e.ppn, 42);
    assert_eq!(e.flags, PTE_R | PTE_W | PTE_V);
    assert!(e.is_valid() && e.readable() && e.writable() && !e.executable());
    // root plus two directory frames
    assert_eq!(mem.available(), 15 - 3);
    // a second page under the same directories draws no frame
    assert_eq!(pt.map(&mut mem, 0x11, 43, PTE_R), Ok(()));
    assert_eq!(mem.available(), 12);
    assert_eq!(pt.unmap(0x10).unwrap().ppn, 42);
    assert_eq!(pt.translate(0x10), None);
    assert_eq!(pt.unmap(0x10), Err(MapError::NotMapped));
    assert_eq!(pt.token(), 0x8000_0000_0000_0000u64 + 1);
}

#[test]
fn mapping_a_valid_page_fails_and_changes_nothing() {
    let mut mem = PhysMemory::new(1, 16);
    let mut pt = PageTable::new(&mut mem, 5).unwrap();
    pt.map(&mut mem, 0x10, 42, PTE_R).unwrap();
    pt.map(&mut mem, 0x20, 43, PTE_W).unwrap();
    let free = mem.available();
    assert_eq!(pt.map(&mut mem, 0x10, 99, PTE_W), Err(MapError::AlreadyMapped));
    assert_eq!(mem.available(), free);
    assert_eq!(pt.translate(0x10).unwrap().ppn, 42);
    assert_eq!(pt.translate(0x10).unwrap().flags, PTE_R | PTE_V);
    assert_eq!(pt.translate(0x20).unwrap().ppn, 43);
}

#[test]
fn page_table_out_of_frames() {
    let mut mem = PhysMemory::new(1, 4);
    let mut pt = PageTable::new(&mut mem, 5).unwrap();
    assert_eq!(pt.map(&mut mem, 0x10, 42, PTE_R), Ok(()));
    assert_eq!(mem.available(), 0);
    // a page in another top-level branch needs two new directory frames
    assert_eq!(pt.map(&mut mem, 0x4000000, 43, PTE_R), Err(MapError::OutOfFrames));
    assert_eq!(pt.translate(0x4000000), None);
}

#[test]
fn inserted_area_translates_with_its_permissions() {
    let mut mem = PhysMemory::new(1, 64);
    let mut ms = MemorySet::new_bare(&mut mem, 3).unwrap();
    assert_eq!(ms.insert_framed_area(&mut mem, 0x10, 0x13, MAP_R | MAP_W | MAP_U), Ok(()));
    for v in 0x10..0x13 {
        let e = ms.translate(v).unwrap();
        assert_eq!(e.flags, MAP_R | MAP_W | MAP_U | PTE_V);
    }
    assert_eq!(ms.translate(0x13), None);
    assert_eq!(ms.translate(0x0f), None);
    let t = ms.translate(TRAMPOLINE_VPN).unwrap();
    assert_eq!(t.ppn, 0);
    assert_eq!(ms.area_count(), 1);
}

#[test]
fn overlapping_area_is_refused_whole() {
    let mut mem = PhysMemory::new(1, 64);
    let mut ms = MemorySet::new_bare(&mut mem, 3).unwrap();
    ms.insert_framed_area(&mut mem, 0x10, 0x12, MAP_R | MAP_U).unwrap();
    let free = mem.available();
    assert_eq!(ms.insert_framed_area(&mut mem, 0x0e, 0x11, MAP_W | MAP_U), Err(MapError::AlreadyMapped));
    assert_eq!(mem.available(), free);
    assert_eq!(ms.translate(0x0e), None);
    assert_eq!(ms.translate(0x0f), None);
    assert_eq!(ms.translate(0x10).unwrap().flags, MAP_R | MAP_U | PTE_V);
}

#[test]
fn area_refused_when_memory_is_short() {
    let mut mem = PhysMemory::new(1, 8);
    let mut ms = MemorySet::new_bare(&mut mem, 3).unwrap();
    assert_eq!(mem.available(), 4);
    assert_eq!(ms.insert_framed_area(&mut mem, 0x10, 0x12, MAP_R), Err(MapError::OutOfFrames));
    assert_eq!(ms.translate(0x10), None);
}

#[test]
fn user_bytes_round_trip_and_unmapped_fails() {
    let mut mem = PhysMemory::new(1, 64);
    let mut ms = MemorySet::new_bare(&mut mem, 3).unwrap();
    ms.insert_framed_area(&mut mem, 0x10, 0x12, MAP_R | MAP_W | MAP_U).unwrap();
    let data: Vec<u8> = (0..20u8).collect();
    // across the page boundary
    assert!(ms.write_user_bytes(&mut mem, 0x10ff0, &data));
    assert_eq!(ms.read_user_bytes(&mem, 0x10ff0, 20), Some(data.clone()));
    assert!(!ms.write_user_bytes(&mut mem, 0x11ff8, &data));
    assert_eq!(ms.read_user_bytes(&mem, 0x11ff8, 20), None);
    assert_eq!(ms.read_user_byte(&mem, 0x11ff8), Some(0));
}

#[test]
fn fork_copy_has_same_bytes_and_own_frames() {
    let mut mem = PhysMemory::new(1, 128);
    let mut parent = MemorySet::new_bare(&mut mem, 3).unwrap();
    parent.insert_framed_area(&mut mem, 0x10, 0x12, MAP_R | MAP_W | MAP_U).unwrap();
    parent.insert_framed_area(&mut mem, 0x20, 0x21, MAP_R | MAP_X | MAP_U).unwrap();
    assert!(parent.write_user_bytes(&mut mem, 0x10008, &vec![1, 2, 3]));
    let child = MemorySet::from_existing(&parent, &mut mem, 4).unwrap();
    for v in [0x10usize, 0x11, 0x20] {
        let pe = parent.translate(v).unwrap();
        let ce = child.translate(v).unwrap();
        assert_eq!(pe.flags, ce.flags);
        assert_ne!(pe.ppn, ce.ppn);
    }
    assert_eq!(child.read_user_bytes(&mem, 0x10008, 3), Some(vec![1, 2, 3]));
    // writing into the copy leaves the original as it was
    assert!(child.write_user_bytes(&mut mem, 0x10008, &vec![9, 9, 9]));
    assert_eq!(parent.read_user_bytes(&mem, 0x10008, 3), Some(vec![1, 2, 3]));
    assert_eq!(child.read_user_bytes(&mem, 0x10008, 3), Some(vec![9, 9, 9]));
}

#[test]
fn fork_copy_refused_when_memory_is_short() {
    let mut mem = PhysMemory::new(1, 12);
    let mut parent = MemorySet::new_bare(&mut mem, 3).unwrap();
    parent.insert_framed_area(&mut mem, 0x10, 0x12, MAP_R | MAP_U).unwrap();
    let free = mem.available();
    assert!(free < 3 * 2 + 3);
    assert!(MemorySet::from_existing(&parent, &mut mem, 4).is_none());
    assert_eq!(mem.available(), free);
}

#[test]
fn removing_an_area_frees_its_frames() {
    let mut mem = PhysMemory::new(1, 64);
    let mut ms = MemorySet::new_bare(&mut mem, 3).unwrap();
    ms.insert_framed_area(&mut mem, 0x10, 0x12, MAP_R | MAP_U).unwrap();
    let free = mem.available();
    assert!(!ms.remove_area(&mut mem, 0x11));
    assert!(ms.remove_area(&mut mem, 0x10));
    assert_eq!(mem.available(), free + 2);
    assert_eq!(ms.translate(0x10), None);
    assert_eq!(ms.area_count(), 0);
}

fn two_segment_image() -> ExecImage {
    ExecImage {
        entry: 0x10000,
        segments: vec![
            ProgramSegment { start_va: 0x10000, end_va: 0x10800, readable: true, writable: false, executable: true, data: vec![0x13, 0, 0, 0] },
            ProgramSegment { start_va: 0x20000, end_va: 0x22000, readable: true, writable: true, executable: false, data: b"hello".to_vec() },
        ],
    }
}

#[test]
fn executable_is_laid_out_with_stack_and_trap_context() {
    let mut mem = PhysMemory::new(1, 128);
    let (ms, sp, entry) = MemorySet::from_executable(&two_segment_image(), &mut mem, 3).unwrap();
    assert_eq!(entry, 0x10000);
    // highest segment page ends at 0x22, one guard page, two stack pages
    assert_eq!(sp, 0x25000);
    assert_eq!(ms.translate(0x10).unwrap().flags, MAP_R | MAP_X | MAP_U | PTE_V);
    assert_eq!(ms.translate(0x20).unwrap().flags, MAP_R | MAP_W | MAP_U | PTE_V);
    assert_eq!(ms.translate(0x22), None);
    assert_eq!(ms.translate(0x23).unwrap().flags, MAP_R | MAP_W | MAP_U | PTE_V);
    assert_eq!(ms.translate(0x24).unwrap().flags, MAP_R | MAP_W | MAP_U | PTE_V);
    assert_eq!(ms.translate(0x25), None);
    assert_eq!(ms.translate(TRAP_CONTEXT_VPN).unwrap().flags, MAP_R | MAP_W | PTE_V);
    assert_eq!(ms.read_user_bytes(&mem, 0x20000, 5), Some(b"hello".to_vec()));
    assert_eq!(ms.read_user_bytes(&mem, 0x10000, 4), Some(vec![0x13, 0, 0, 0]));
    assert_eq!(ms.read_user_str(&mem, 0x20000), Some(b"hello".to_vec()));
}

#[test]
fn overlapping_segments_do_not_fit() {
    let mut img = two_segment_image();
    img.segments[1].start_va = 0x10400;
    assert!(!MemorySet::check_image(&img));
    let mut mem = PhysMemory::new(1, 128);
    let free = mem.available();
    assert!(MemorySet::from_executable(&img, &mut mem, 3).is_none());
    assert_eq!(mem.available(), free);
}
