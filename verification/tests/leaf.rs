use pagestore::datatype::{DataType, ScalarValue, Schema};
use pagestore::errors::Error;
use pagestore::tree::LeafNode;

fn number_schema() -> Schema {
    Schema {
        feilds: vec![("a".to_string(), DataType::Number)],
    }
}

#[test]
fn insert_one() {
    let schema = Schema {
        feilds: vec![("a".to_string(), DataType::Number)],
    };
    let mut page = LeafNode::new();
    assert_eq!(page.num_cells(), 0);
    page.leaf_node_split_and_insert(0, vec![ScalarValue::Number(1)], &schema)
        .unwrap();
    assert_eq!(page.num_cells(), 1);
    let (_, val) = page.read_row(0, &schema).unwrap();
    assert_eq!(val, vec![ScalarValue::Number(1)])
}

#[test]
fn insert_two() {
    let schema = Schema {
        feilds: vec![("a".to_string(), DataType::Number)],
    };
    let mut page = LeafNode::new();
    assert_eq!(page.num_cells(), 0);
    page.leaf_node_split_and_insert(1, vec![ScalarValue::Number(1)], &schema)
        .unwrap();
    page.leaf_node_split_and_insert(0, vec![ScalarValue::Number(2)], &schema)
        .unwrap();
    assert_eq!(page.num_cells(), 2);
    let (_, val) = page.read_row(0, &schema).unwrap();
    assert_eq!(val, vec![ScalarValue::Number(2)]);
    let (_, val) = page.read_row(1, &schema).unwrap();
    assert_eq!(val, vec![ScalarValue::Number(1)]);
}

#[test]
fn fill_and_split() {
    let schema = Schema {
        feilds: vec![("a".to_string(), DataType::Number)],
    };
    let mut page = LeafNode::new();
    assert_eq!(page.num_cells(), 0);
    let value_size = schema.row_size();
    let max_cell = page.max_cells(value_size);

    for key in (0..max_cell).rev() {
        page.leaf_node_split_and_insert(
            key as u32,
            vec![ScalarValue::Number(key as i64)],
            &schema,
        )
        .unwrap();
        assert!(page.binary_search(key as u32, value_size).is_some());
        assert_eq!(page.num_cells(), (max_cell - key) as u32);
    }

    let new_node = page
        .leaf_node_split_and_insert(
            max_cell as u32,
            vec![ScalarValue::Number(max_cell as i64)],
            &schema,
        )
        .unwrap()
        .unwrap();

    assert_eq!(new_node.num_cells(), (max_cell as u32 + 1) / 2);
    assert_eq!(new_node.parent(), page.parent());
}

#[test]
fn max_cells_follows_page_geometry() {
    let page = LeafNode::new();
    assert_eq!(page.cell_size(8), 12);
    assert_eq!(page.max_cells(8), 340);
    assert_eq!(page.max_cells(18), 185);
    assert_eq!(page.max_cells(0), 1020);
}

#[test]
fn inserts_in_any_order_stay_sorted() {
    let schema = number_schema();
    let mut page = LeafNode::new();
    let keys = [40u32, 10, 30, 20, 50, 5, 45];
    for key in keys {
        let split = page
            .leaf_node_split_and_insert(key, vec![ScalarValue::Number(key as i64 * 2)], &schema)
            .unwrap();
        assert!(split.is_none());
    }
    assert_eq!(page.num_cells(), 7);
    assert!(page.is_sorted(8));
    let sorted = [5u32, 10, 20, 30, 40, 45, 50];
    for (place, key) in sorted.iter().enumerate() {
        assert_eq!(page.key(place, 8), *key);
        assert_eq!(page.binary_search(*key, 8), Some(place));
        let (found, values) = page.read_row(place, &schema).unwrap();
        assert_eq!(found, *key);
        assert_eq!(values, vec![ScalarValue::Number(*key as i64 * 2)]);
    }
    for missing in [0u32, 7, 15, 41, 51, u32::MAX] {
        assert_eq!(page.binary_search(missing, 8), None);
    }
    assert_eq!(page.lower_bound(0, 8), 0);
    assert_eq!(page.lower_bound(30, 8), 3);
    assert_eq!(page.lower_bound(31, 8), 4);
    assert_eq!(page.lower_bound(51, 8), 7);
}

#[test]
fn duplicate_key_goes_before_its_equals() {
    let schema = number_schema();
    let mut page = LeafNode::new();
    page.leaf_node_split_and_insert(3, vec![ScalarValue::Number(30)], &schema)
        .unwrap();
    page.leaf_node_split_and_insert(1, vec![ScalarValue::Number(10)], &schema)
        .unwrap();
    page.leaf_node_split_and_insert(3, vec![ScalarValue::Number(31)], &schema)
        .unwrap();
    assert_eq!(page.num_cells(), 3);
    assert_eq!(page.key(1, 8), 3);
    assert_eq!(page.key(2, 8), 3);
    assert_eq!(page.read_row(1, &schema).unwrap().1, vec![ScalarValue::Number(31)]);
    assert_eq!(page.read_row(2, &schema).unwrap().1, vec![ScalarValue::Number(30)]);
}

#[test]
fn split_keeps_every_entry_in_order() {
    let schema = number_schema();
    let mut page = LeafNode::new();
    page.set_parent(9);
    page.set_next_leaf(4);
    let max = page.max_cells(8);
    // Even keys fill the leaf; an odd key in the lower half forces the split.
    for i in 0..max {
        let key = (2 * i) as u32;
        page.leaf_node_split_and_insert(key, vec![ScalarValue::Number(key as i64)], &schema)
            .unwrap();
    }
    assert_eq!(page.num_cells() as usize, max);
    let right = page
        .leaf_node_split_and_insert(7, vec![ScalarValue::Number(7)], &schema)
        .unwrap()
        .unwrap();
    let right_count = (max + 1) / 2;
    let left_count = max + 1 - right_count;
    assert_eq!(page.num_cells() as usize, left_count);
    assert_eq!(right.num_cells() as usize, right_count);
    assert_eq!(page.num_cells() + right.num_cells(), max as u32 + 1);
    assert_eq!(right.parent(), 9);
    assert_eq!(page.parent(), 9);
    assert_eq!(right.next_leaf(), 4);
    let mut expected: Vec<u32> = (0..max).map(|i| (2 * i) as u32).collect();
    expected.insert(4, 7);
    for place in 0..left_count {
        let (key, values) = page.read_row(place, &schema).unwrap();
        assert_eq!(key, expected[place]);
        assert_eq!(values, vec![ScalarValue::Number(key as i64)]);
    }
    for place in 0..right_count {
        let (key, values) = right.read_row(place, &schema).unwrap();
        assert_eq!(key, expected[left_count + place]);
        assert_eq!(values, vec![ScalarValue::Number(key as i64)]);
    }
    assert!(page.is_sorted(8));
    assert!(right.is_sorted(8));
}

#[test]
fn split_with_new_key_in_the_right_half() {
    let schema = number_schema();
    let mut page = LeafNode::new();
    let max = page.max_cells(8);
    for i in 0..max {
        page.leaf_node_split_and_insert(i as u32, vec![ScalarValue::Number(i as i64)], &schema)
            .unwrap();
    }
    let right = page
        .leaf_node_split_and_insert(max as u32, vec![ScalarValue::Number(-1)], &schema)
        .unwrap()
        .unwrap();
    let right_count = (max + 1) / 2;
    let left_count = max + 1 - right_count;
    assert_eq!(page.num_cells() as usize, left_count);
    assert_eq!(right.key(right_count - 1, 8), max as u32);
    assert_eq!(
        right.read_row(right_count - 1, &schema).unwrap().1,
        vec![ScalarValue::Number(-1)]
    );
    assert_eq!(right.key(0, 8), left_count as u32);
    assert_eq!(page.key(left_count - 1, 8), left_count as u32 - 1);
}

#[test]
fn too_long_string_is_refused_and_leaves_the_page() {
    let schema = Schema {
        feilds: vec![
            ("a".to_string(), DataType::Number),
            ("b".to_string(), DataType::String(10)),
        ],
    };
    let mut page = LeafNode::new();
    page.leaf_node_split_and_insert(
        1,
        vec![ScalarValue::Number(1), ScalarValue::String("ninechars".to_string())],
        &schema,
    )
    .unwrap();
    let before = page.bytes.clone();
    let refused = page.leaf_node_split_and_insert(
        2,
        vec![ScalarValue::Number(2), ScalarValue::String("ten chars!".to_string())],
        &schema,
    );
    assert_eq!(refused.err(), Some(Error::ParseError));
    assert_eq!(page.bytes, before);
    assert_eq!(page.num_cells(), 1);
    assert_eq!(
        page.read_row(0, &schema).unwrap(),
        (1, vec![ScalarValue::Number(1), ScalarValue::String("ninechars".to_string())])
    );
}

#[test]
fn wrong_kind_or_count_is_refused() {
    let schema = number_schema();
    let mut page = LeafNode::new();
    let wrong_kind =
        page.leaf_node_split_and_insert(1, vec![ScalarValue::String("x".to_string())], &schema);
    assert_eq!(wrong_kind.err(), Some(Error::ParseError));
    let wrong_count = page.leaf_node_split_and_insert(1, vec![], &schema);
    assert_eq!(wrong_count.err(), Some(Error::ParseError));
    assert_eq!(
        page.serialize_row(0, &schema, 1, &[ScalarValue::Number(1), ScalarValue::Number(2)]),
        Err(Error::ParseError)
    );
    assert_eq!(page.num_cells(), 0);
}

#[test]
fn header_fields_are_independent() {
    let mut page = LeafNode::new();
    page.set_parent(0x0102_0304);
    page.set_next_leaf(77);
    page.set_num_cells(5);
    assert_eq!(page.parent(), 0x0102_0304);
    assert_eq!(page.next_leaf(), 77);
    assert_eq!(page.num_cells(), 5);
    assert_eq!(&page.bytes[2..6], &0x0102_0304u32.to_ne_bytes());
    assert_eq!(&page.bytes[6..10], &5u32.to_ne_bytes());
    assert_eq!(&page.bytes[10..14], &77u32.to_ne_bytes());
    assert_eq!(page.bytes[0], 0);
    assert_eq!(page.bytes[1], 0);
}

#[test]
fn cells_can_be_copied_and_written_in_place() {
    let schema = number_schema();
    let mut page = LeafNode::new();
    page.serialize_row(0, &schema, 11, &[ScalarValue::Number(-5)]).unwrap();
    page.copy_within(8, 0, 3);
    assert_eq!(page.key(3, 8), 11);
    assert_eq!(page.cell(3, 8), page.cell(0, 8));
    assert_eq!(page.cell(0, 8).len(), 12);
    assert_eq!(&page.cell(0, 8)[..4], &11u32.to_ne_bytes());
    assert_eq!(&page.cell(0, 8)[4..], &(-5i64).to_ne_bytes());
    page.cell_mut(2, 8).copy_from_slice(&[1u8; 12]);
    assert_eq!(page.cell(2, 8), &[1u8; 12]);
    assert_eq!(page.key(3, 8), 11);
    assert_eq!(page.key(1, 8), 0);
    let rebuilt = LeafNode::new_with_bytes(page.bytes.clone());
    assert_eq!(rebuilt.bytes, page.bytes);
}
