use pagestore::datatype::{DataType, ScalarValue, Schema};
use pagestore::errors::Error;
use pagestore::execution::execution;
use pagestore::statement::{InsertStatement, Statement};
use pagestore::table::{header_region, Page, Table, TableHeader, HEADER_SPACE};

fn schema_ab() -> Schema {
    Schema {
        feilds: vec![
            ("a".to_string(), DataType::Number),
            ("b".to_string(), DataType::String(10)),
        ],
    }
}

fn header(schema: Schema, num_rows: usize) -> TableHeader {
    TableHeader {
        name: "global".to_string(),
        schema,
        num_rows,
    }
}

fn fresh(schema: Schema) -> Table {
    Table::new(header(schema, 0), vec![0u8; HEADER_SPACE]).unwrap()
}

fn row(n: i64, s: &str) -> Vec<ScalarValue> {
    vec![ScalarValue::Number(n), ScalarValue::String(s.to_string())]
}

fn insert(values: Vec<ScalarValue>) -> InsertStatement {
    InsertStatement { values }
}

#[test]
fn two_rows_are_read_back_and_persist() {
    let mut table = fresh(schema_ab());
    table.insert(insert(row(1, "hi"))).unwrap();
    table.insert(insert(row(2, "there"))).unwrap();
    assert_eq!(table.read(0).unwrap(), row(1, "hi"));
    assert_eq!(table.read(1).unwrap(), row(2, "there"));
    assert_eq!(table.header.num_rows, 2);

    // The header goes to its region encoded; the file is then all there is.
    let encoded = bincode::serialize(&("global".to_string(), 2u64)).unwrap();
    table.flush_table_header(&encoded).unwrap();
    let file = table.pages.file.clone();
    drop(table);

    let (name, num_rows): (String, u64) = bincode::deserialize(&file[..HEADER_SPACE]).unwrap();
    assert_eq!(name, "global");
    assert_eq!(num_rows, 2);
    let mut reopened = Table::new(header(schema_ab(), num_rows as usize), file).unwrap();
    assert_eq!(reopened.pages.pages, 1);
    assert!(reopened.pages.cache[0].is_none());
    assert_eq!(reopened.read(0).unwrap(), row(1, "hi"));
    assert_eq!(reopened.read(1).unwrap(), row(2, "there"));
    reopened.insert(insert(row(3, "again"))).unwrap();
    assert_eq!(reopened.read(2).unwrap(), row(3, "again"));
    assert_eq!(reopened.read(0).unwrap(), row(1, "hi"));
}

#[test]
fn rows_are_cells_with_their_index_as_key() {
    let mut table = fresh(schema_ab());
    for i in 0..5 {
        table.insert(insert(row(i * 10, "x"))).unwrap();
    }
    match table.pages.page(0).unwrap() {
        Page::Leaf(leaf) => {
            assert_eq!(leaf.num_cells(), 5);
            for i in 0..5usize {
                assert_eq!(leaf.key(i, 18), i as u32);
                assert_eq!(leaf.binary_search(i as u32, 18), Some(i));
            }
            assert!(leaf.is_sorted(18));
        }
        Page::Intermediate(_) => panic!("the first page is a leaf"),
    }
    // The page was written to the file when the row went in.
    let cached = table.pages.page(0).unwrap().bytes().to_vec();
    assert_eq!(&table.pages.file[HEADER_SPACE..HEADER_SPACE + 4096], cached.as_slice());
}

#[test]
fn rows_per_page_and_max_rows_follow_the_row_size() {
    let table = fresh(schema_ab());
    assert_eq!(table.schema().row_size(), 18);
    assert_eq!(table.rows_per_page(), 185);
    assert_eq!(table.max_rows(), 18500);
    let numbers = fresh(Schema {
        feilds: vec![("a".to_string(), DataType::Number)],
    });
    assert_eq!(numbers.rows_per_page(), 340);
    assert_eq!(numbers.max_rows(), 34000);
    let widest = fresh(Schema {
        feilds: vec![("s".to_string(), DataType::String(4078))],
    });
    assert_eq!(widest.rows_per_page(), 1);
    assert_eq!(widest.max_rows(), 100);
}

#[test]
fn a_full_table_refuses_the_next_row() {
    let schema = Schema {
        feilds: vec![
            ("a".to_string(), DataType::Number),
            ("b".to_string(), DataType::String(2000)),
        ],
    };
    let mut table = fresh(schema);
    assert_eq!(table.rows_per_page(), 2);
    let max_rows = table.max_rows();
    assert_eq!(max_rows, 200);
    for i in 0..max_rows {
        table
            .insert(insert(row(i as i64, "row")))
            .unwrap_or_else(|e| panic!("row {} was refused: {:?}", i, e));
        assert_eq!(table.header.num_rows, i + 1);
    }
    assert_eq!(table.pages.pages, 100);
    let file = table.pages.file.clone();
    assert_eq!(table.insert(insert(row(0, "late"))), Err(Error::RowLimit));
    assert_eq!(table.header.num_rows, max_rows);
    assert_eq!(table.pages.file, file);
    // Values that would be refused anyway meet the limit first.
    assert_eq!(table.insert(insert(vec![])), Err(Error::RowLimit));
    for i in [0usize, 1, 2, 99, 198, 199] {
        assert_eq!(table.read(i).unwrap(), row(i as i64, "row"));
    }
    assert_eq!(table.read(max_rows).err(), Some(Error::ParseError));
}

#[test]
fn rows_go_on_to_the_next_page() {
    let mut table = fresh(schema_ab());
    for i in 0..400i64 {
        table.insert(insert(row(i, "p"))).unwrap();
    }
    assert_eq!(table.pages.pages, 3);
    assert_eq!(table.pages.file.len(), HEADER_SPACE + 3 * 4096);
    for i in [0usize, 184, 185, 369, 370, 399] {
        assert_eq!(table.read(i).unwrap(), row(i as i64, "p"));
    }
    let file = table.pages.file.clone();
    let mut reopened = Table::new(header(schema_ab(), 400), file).unwrap();
    assert_eq!(reopened.pages.pages, 3);
    for i in [399usize, 185, 0] {
        assert_eq!(reopened.read(i).unwrap(), row(i as i64, "p"));
    }
}

#[test]
fn a_string_too_long_for_its_slot_is_refused() {
    let mut table = fresh(schema_ab());
    table.insert(insert(row(1, "ninechars"))).unwrap();
    let file = table.pages.file.clone();
    assert_eq!(
        table.insert(insert(row(2, "ten chars!"))),
        Err(Error::ParseError)
    );
    assert_eq!(table.header.num_rows, 1);
    assert_eq!(table.pages.file, file);
    assert_eq!(table.read(0).unwrap(), row(1, "ninechars"));
    assert_eq!(table.read(1).err(), Some(Error::ParseError));
    table.insert(insert(row(2, "fits"))).unwrap();
    assert_eq!(table.read(1).unwrap(), row(2, "fits"));
}

#[test]
fn values_of_the_wrong_kind_or_number_are_refused() {
    let mut table = fresh(schema_ab());
    let refused = vec![
        vec![],
        vec![ScalarValue::Number(1)],
        vec![ScalarValue::String("a".to_string()), ScalarValue::Number(1)],
        vec![
            ScalarValue::Number(1),
            ScalarValue::String("a".to_string()),
            ScalarValue::Number(1),
        ],
    ];
    for values in refused {
        assert_eq!(table.insert(insert(values)), Err(Error::ParseError));
    }
    assert_eq!(table.header.num_rows, 0);
    assert_eq!(table.pages.pages, 0);
    assert_eq!(table.pages.file.len(), HEADER_SPACE);
}

#[test]
fn opening_checks_the_header_against_the_file() {
    let too_wide = Schema {
        feilds: vec![("s".to_string(), DataType::String(4079))],
    };
    assert_eq!(
        Table::new(header(too_wide, 0), vec![0u8; HEADER_SPACE]).err(),
        Some(Error::SerializationError)
    );
    // No header region.
    assert_eq!(
        Table::new(header(schema_ab(), 0), vec![]).err(),
        Some(Error::IOError)
    );
    // One row needs one page behind the header.
    assert_eq!(
        Table::new(header(schema_ab(), 1), vec![0u8; HEADER_SPACE]).err(),
        Some(Error::IOError)
    );
    assert!(Table::new(header(schema_ab(), 185), vec![0u8; HEADER_SPACE + 4096]).is_ok());
    assert_eq!(
        Table::new(header(schema_ab(), 186), vec![0u8; HEADER_SPACE + 4096]).err(),
        Some(Error::IOError)
    );
    // More rows than a hundred pages hold.
    assert_eq!(
        Table::new(header(schema_ab(), 18501), vec![0u8; HEADER_SPACE + 101 * 4096]).err(),
        Some(Error::IOError)
    );
    let full = Table::new(header(schema_ab(), 18500), vec![0u8; HEADER_SPACE + 100 * 4096]);
    assert_eq!(full.unwrap().pages.pages, 100);
}

#[test]
fn a_page_that_does_not_fit_the_header_fails_the_insert() {
    // The header says three rows, the page holds none.
    let mut table = Table::new(header(schema_ab(), 3), vec![0u8; HEADER_SPACE + 4096]).unwrap();
    let file = table.pages.file.clone();
    assert_eq!(table.insert(insert(row(1, "a"))), Err(Error::IOError));
    assert_eq!(table.header.num_rows, 3);
    assert_eq!(table.pages.file, file);
    assert_eq!(table.read(0).err(), Some(Error::IOError));
    // An internal page where the rows should be.
    let mut file = vec![0u8; HEADER_SPACE + 4096];
    file[HEADER_SPACE] = 1;
    let mut table = Table::new(header(schema_ab(), 3), file).unwrap();
    assert_eq!(table.insert(insert(row(1, "a"))), Err(Error::IOError));
    assert_eq!(table.read(2).err(), Some(Error::IOError));
    // A page of no kind.
    let mut file = vec![0u8; HEADER_SPACE + 4096];
    file[HEADER_SPACE] = 7;
    let mut table = Table::new(header(schema_ab(), 3), file).unwrap();
    assert_eq!(table.insert(insert(row(1, "a"))), Err(Error::IOError));
    assert_eq!(table.read(2).err(), Some(Error::IOError));
}

#[test]
fn the_header_is_written_to_its_region_only() {
    let mut table = fresh(schema_ab());
    table.insert(insert(row(1, "hi"))).unwrap();
    let before = table.pages.file.clone();
    table.flush_table_header(&[5, 6, 7, 8]).unwrap();
    assert_eq!(&table.pages.file[..4], &[5, 6, 7, 8]);
    assert!(table.pages.file[4..HEADER_SPACE].iter().all(|b| *b == 0));
    assert_eq!(&table.pages.file[HEADER_SPACE..], &before[HEADER_SPACE..]);
    assert_eq!(
        table.pages.file[..HEADER_SPACE].to_vec(),
        header_region(&[5, 6, 7, 8]).unwrap()
    );
    // A shorter encoding leaves nothing of a longer one.
    table.flush_table_header(&[9]).unwrap();
    assert_eq!(&table.pages.file[..4], &[9, 0, 0, 0]);
    let kept = table.pages.file.clone();
    assert_eq!(
        table.flush_table_header(&vec![1u8; 4097]),
        Err(Error::SerializationError)
    );
    assert_eq!(table.pages.file, kept);
    assert_eq!(table.read(0).unwrap(), row(1, "hi"));
}

#[test]
fn statements_are_carried_out() {
    let mut table = fresh(schema_ab());
    assert_eq!(
        execution(Statement::Insert(insert(row(7, "seven"))), &mut table),
        Ok(None)
    );
    assert_eq!(
        execution(Statement::Read(0), &mut table),
        Ok(Some(row(7, "seven")))
    );
    assert_eq!(
        execution(Statement::Read(1), &mut table),
        Err(Error::ParseError)
    );
    assert_eq!(
        execution(Statement::Insert(insert(row(7, "much too long"))), &mut table),
        Err(Error::ParseError)
    );
    assert_eq!(table.header.num_rows, 1);
}
