use com_api::layout::{align_up, event_layout, region_layout, EventLayout, EventShape, SizeInfo};

fn shape(capacity: usize, subs: usize, payload: SizeInfo) -> EventShape {
    EventShape { capacity, max_subscribers: subs, payload, log: SizeInfo { size: 40, align: 8 } }
}

#[test]
fn align_up_rounds_to_the_next_multiple() {
    assert_eq!(align_up(0, 8), Some(0));
    assert_eq!(align_up(1, 8), Some(8));
    assert_eq!(align_up(64, 8), Some(64));
    assert_eq!(align_up(65, 16), Some(80));
    assert_eq!(align_up(10, 3), Some(12));
    assert_eq!(align_up(usize::MAX, 2), None);
}

#[test]
fn event_block_parts_follow_each_other() {
    // Three slots of a 4-byte, 4-aligned payload and one subscriber.
    let l = event_layout(64, shape(3, 1, SizeInfo { size: 4, align: 4 })).unwrap();
    assert_eq!(
        l,
        EventLayout { control: 64, headers: 80, payloads: 152, logs: 168, end: 248 }
    );
    // A 16-aligned payload is padded after the headers.
    let l = event_layout(65, shape(1, 0, SizeInfo { size: 16, align: 16 })).unwrap();
    assert_eq!(
        l,
        EventLayout { control: 72, headers: 88, payloads: 112, logs: 128, end: 168 }
    );
    assert_eq!(event_layout(usize::MAX - 4, shape(1, 0, SizeInfo { size: 1, align: 1 })), None);
}

#[test]
fn region_blocks_come_in_declaration_order() {
    let shapes = vec![
        shape(3, 1, SizeInfo { size: 4, align: 4 }),
        shape(2, 2, SizeInfo { size: 8, align: 8 }),
    ];
    let r = region_layout(&shapes).unwrap();
    assert_eq!(r.len(), 2);
    assert_eq!(r[0].control, 64);
    assert_eq!(r[1].control, r[0].end);
    assert_eq!(r[1], EventLayout { control: 248, headers: 264, payloads: 312, logs: 328, end: 448 });
    assert_eq!(region_layout(&Vec::new()), Some(Vec::new()));
    let huge = vec![shape(usize::MAX / 8, 0, SizeInfo { size: 8, align: 8 })];
    assert_eq!(region_layout(&huge), None);
}
