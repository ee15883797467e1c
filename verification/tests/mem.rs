use lexikon::mem;
use lexikon::mem::FieldLayout;

fn layout_of<T>() -> FieldLayout {
    FieldLayout { size: core::mem::size_of::<T>(), align: core::mem::align_of::<T>() }
}

fn address_of<T>(value: &T) -> usize {
    let text = format!("{:p}", value);
    usize::from_str_radix(text.trim_start_matches("0x"), 16).expect("hex address")
}

#[test]
fn container_of() {
    // Entry { before_node: u64, node: u64 } laid out as an array of two words.
    let entry: [u64; 2] = [0xa01e0, 0xb00b];
    let entry_orig_addr = address_of(&entry);
    let node_addr = address_of(&entry[1]);
    let layout = vec![layout_of::<u64>(), layout_of::<u64>()];

    let entry_container = mem::container_of(node_addr, &layout, 1);

    assert!(entry_orig_addr == entry_container);
}

#[test]
fn offset_of() {
    // Entry { before_node: u64, node: Node { a: u32, b: u32 }, after_node: u64, more_after: u8, unaligned: u8 }
    let entry = vec![
        layout_of::<u64>(),
        layout_of::<[u32; 2]>(),
        layout_of::<u64>(),
        layout_of::<u8>(),
        layout_of::<u8>(),
    ];

    assert!(mem::offset_of(&entry, 2) == 16);
    assert!(mem::offset_of(&entry, 0) == 0);
    assert!(mem::offset_of(&entry, 3) == 24);
    assert!(mem::offset_of(&entry, 4) == 25);
}

#[test]
fn offset_of_pads_to_alignment() {
    let fields = vec![
        FieldLayout { size: 1, align: 1 },
        FieldLayout { size: 4, align: 4 },
        FieldLayout { size: 2, align: 2 },
        FieldLayout { size: 8, align: 8 },
    ];
    assert_eq!(mem::offset_of(&fields, 1), 4);
    assert_eq!(mem::offset_of(&fields, 2), 8);
    assert_eq!(mem::offset_of(&fields, 3), 16);
}

#[test]
fn container_of_recovers_struct_address() {
    let fields = vec![FieldLayout { size: 8, align: 8 }, FieldLayout { size: 8, align: 8 }];
    assert_eq!(mem::container_of(0x1008, &fields, 1), 0x1000);
    assert_eq!(mem::container_of(0x1000, &fields, 0), 0x1000);
}
