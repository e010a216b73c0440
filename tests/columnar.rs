use tantivy::cardinality::{infer_cardinality, Cardinality};
use tantivy::columnar::{ColumnarReader, DynamicColumn, DynamicColumnHandle};
use tantivy::dictionary::{compare_bytes, Dictionary};
use tantivy::value::{ColumnType, DateTime, NumericalValue};
use tantivy::writer::{ColumnarError, ColumnarWriter};

fn directory(columnar: &ColumnarReader) -> Vec<(String, ColumnType)> {
    columnar
        .list_columns()
        .iter()
        .map(|h| (h.name.clone(), h.column_type()))
        .collect()
}

#[test]
fn test_dataframe_writer_str() {
    let mut dataframe_writer = ColumnarWriter::default();
    dataframe_writer.record_str(1u32, "my_string", "hello");
    dataframe_writer.record_str(3u32, "my_string", "helloeee");
    let columnar = dataframe_writer.serialize(5, None).unwrap();
    assert_eq!(columnar.num_columns(), 1);
    let cols: Vec<&DynamicColumnHandle> = columnar.read_columns("my_string");
    assert_eq!(cols.len(), 1);
    let DynamicColumn::Str(str_col) = cols[0].open() else { panic!() };
    let ords: Vec<Option<u64>> = (0..5).map(|row| str_col.ords().first(row)).collect();
    assert_eq!(ords, vec![None, Some(0), None, Some(1), None]);
    let mut buffer = String::new();
    assert!(str_col.ord_to_str(0, &mut buffer));
    assert_eq!(buffer, "hello");
    assert!(str_col.ord_to_str(1, &mut buffer));
    assert_eq!(buffer, "helloeee");
    assert!(!str_col.ord_to_str(2, &mut buffer));
    assert_eq!(buffer, "helloeee");
}

#[test]
fn test_dataframe_writer_bytes() {
    let mut dataframe_writer = ColumnarWriter::default();
    dataframe_writer.record_bytes(1u32, "my_string", b"hello");
    dataframe_writer.record_bytes(3u32, "my_string", b"helloeee");
    let columnar = dataframe_writer.serialize(5, None).unwrap();
    assert_eq!(columnar.num_columns(), 1);
    let cols: Vec<&DynamicColumnHandle> = columnar.read_columns("my_string");
    assert_eq!(cols.len(), 1);
    assert_eq!(cols[0].column_type(), ColumnType::Bytes);
}

#[test]
fn test_dataframe_writer_bool() {
    let mut dataframe_writer = ColumnarWriter::default();
    dataframe_writer.record_bool(1u32, "bool.value", false);
    dataframe_writer.record_bool(3u32, "bool.value", true);
    let columnar = dataframe_writer.serialize(5, None).unwrap();
    assert_eq!(columnar.num_columns(), 1);
    let cols: Vec<&DynamicColumnHandle> = columnar.read_columns("bool.value");
    assert_eq!(cols.len(), 1);
    assert_eq!(cols[0].column_type(), ColumnType::Bool);
    let DynamicColumn::Bool(bool_col) = cols[0].open() else { panic!() };
    assert_eq!(bool_col.get_cardinality(), Cardinality::Optional);
    let vals: Vec<Option<bool>> = (0..5).map(|row_id| bool_col.first(row_id)).collect();
    assert_eq!(&vals, &[None, Some(false), None, Some(true), None,]);
}

#[test]
fn test_dataframe_writer_u64_multivalued() {
    let mut dataframe_writer = ColumnarWriter::default();
    dataframe_writer.record_numerical(2u32, "divisor", NumericalValue::U64(2));
    dataframe_writer.record_numerical(3u32, "divisor", NumericalValue::U64(3));
    dataframe_writer.record_numerical(4u32, "divisor", NumericalValue::U64(2));
    dataframe_writer.record_numerical(5u32, "divisor", NumericalValue::U64(5));
    dataframe_writer.record_numerical(6u32, "divisor", NumericalValue::U64(2));
    dataframe_writer.record_numerical(6u32, "divisor", NumericalValue::U64(3));
    let columnar = dataframe_writer.serialize(7, None).unwrap();
    assert_eq!(columnar.num_columns(), 1);
    let cols: Vec<&DynamicColumnHandle> = columnar.read_columns("divisor");
    assert_eq!(cols.len(), 1);
    let DynamicColumn::I64(divisor_col) = cols[0].open() else { panic!() };
    assert_eq!(divisor_col.get_cardinality(), Cardinality::Multivalued);
    assert_eq!(divisor_col.num_docs(), 7);
    assert_eq!(cols[0].open().num_docs(), 7);
    assert_eq!(divisor_col.values_for_doc(6), vec![2i64, 3]);
    assert_eq!(divisor_col.values_for_doc(1), Vec::<i64>::new());
}

#[test]
fn test_dataframe_writer_ip_addr() {
    let mut dataframe_writer = ColumnarWriter::default();
    dataframe_writer.record_ip_addr(1, "ip_addr", 1001u128);
    dataframe_writer.record_ip_addr(3, "ip_addr", 1050u128);
    let columnar = dataframe_writer.serialize(5, None).unwrap();
    assert_eq!(columnar.num_columns(), 1);
    let cols: Vec<&DynamicColumnHandle> = columnar.read_columns("ip_addr");
    assert_eq!(cols.len(), 1);
    assert_eq!(cols[0].column_type(), ColumnType::IpAddr);
    let DynamicColumn::IpAddr(ip_col) = cols[0].open() else { panic!() };
    assert_eq!(ip_col.get_cardinality(), Cardinality::Optional);
    let vals: Vec<Option<u128>> = (0..5).map(|row_id| ip_col.first(row_id)).collect();
    assert_eq!(&vals, &[None, Some(1001), None, Some(1050), None]);
}

#[test]
fn test_dataframe_writer_numerical() {
    let mut dataframe_writer = ColumnarWriter::default();
    dataframe_writer.record_numerical(1u32, "srical.value", NumericalValue::U64(12u64));
    dataframe_writer.record_numerical(2u32, "srical.value", NumericalValue::U64(13u64));
    dataframe_writer.record_numerical(4u32, "srical.value", NumericalValue::U64(15u64));
    let columnar = dataframe_writer.serialize(6, None).unwrap();
    assert_eq!(columnar.num_columns(), 1);
    let cols: Vec<&DynamicColumnHandle> = columnar.read_columns("srical.value");
    assert_eq!(cols.len(), 1);
    let DynamicColumn::I64(column_i64) = cols[0].open() else { panic!() };
    assert_eq!(column_i64.get_cardinality(), Cardinality::Optional);
    assert_eq!(column_i64.first(0), None);
    assert_eq!(column_i64.first(1), Some(12i64));
    assert_eq!(column_i64.first(2), Some(13i64));
    assert_eq!(column_i64.first(3), None);
    assert_eq!(column_i64.first(4), Some(15i64));
    assert_eq!(column_i64.first(5), None);
    assert_eq!(column_i64.first(6), None);
}

#[test]
fn test_dictionary_encoded_str() {
    let mut columnar_writer = ColumnarWriter::default();
    columnar_writer.record_str(1, "my.column", "a");
    columnar_writer.record_str(3, "my.column", "c");
    columnar_writer.record_str(3, "my.column2", "different_column!");
    columnar_writer.record_str(4, "my.column", "b");
    let columnar_reader = columnar_writer.serialize(5, None).unwrap();
    assert_eq!(columnar_reader.num_columns(), 2);
    let col_handles = columnar_reader.read_columns("my.column");
    assert_eq!(col_handles.len(), 1);
    let DynamicColumn::Str(str_col) = col_handles[0].open() else { panic!() };
    let index: Vec<Option<u64>> = (0..5).map(|row_id| str_col.ords().first(row_id)).collect();
    assert_eq!(index, &[None, Some(0), None, Some(2), Some(1)]);
    assert_eq!(str_col.num_rows(), 5);
    let mut term_buffer = String::new();
    let term_ords = str_col.ords();
    assert_eq!(term_ords.first(0), None);
    assert_eq!(term_ords.first(1), Some(0));
    assert!(str_col.ord_to_str(0u64, &mut term_buffer));
    assert_eq!(term_buffer, "a");
    assert_eq!(term_ords.first(2), None);
    assert_eq!(term_ords.first(3), Some(2));
    assert!(str_col.ord_to_str(2u64, &mut term_buffer));
    assert_eq!(term_buffer, "c");
    assert_eq!(term_ords.first(4), Some(1));
    assert!(str_col.ord_to_str(1u64, &mut term_buffer));
    assert_eq!(term_buffer, "b");
}

#[test]
fn test_dictionary_encoded_bytes() {
    let mut columnar_writer = ColumnarWriter::default();
    columnar_writer.record_bytes(1, "my.column", b"a");
    columnar_writer.record_bytes(3, "my.column", b"c");
    columnar_writer.record_bytes(3, "my.column2", b"different_column!");
    columnar_writer.record_bytes(4, "my.column", b"b");
    let columnar_reader = columnar_writer.serialize(5, None).unwrap();
    assert_eq!(columnar_reader.num_columns(), 2);
    let col_handles = columnar_reader.read_columns("my.column");
    assert_eq!(col_handles.len(), 1);
    let DynamicColumn::Bytes(bytes_col) = col_handles[0].open() else { panic!() };
    let index: Vec<Option<u64>> = (0..5).map(|row_id| bytes_col.ords().first(row_id)).collect();
    assert_eq!(index, &[None, Some(0), None, Some(2), Some(1)]);
    assert_eq!(bytes_col.num_rows(), 5);
    let mut term_buffer = Vec::new();
    let term_ords = bytes_col.ords();
    assert_eq!(term_ords.first(0), None);
    assert_eq!(term_ords.first(1), Some(0));
    assert!(bytes_col.dictionary.ord_to_term(0u64, &mut term_buffer));
    assert_eq!(term_buffer, b"a");
    assert_eq!(term_ords.first(2), None);
    assert_eq!(term_ords.first(3), Some(2));
    assert!(bytes_col.dictionary.ord_to_term(2u64, &mut term_buffer));
    assert_eq!(term_buffer, b"c");
    assert_eq!(term_ords.first(4), Some(1));
    assert!(bytes_col.dictionary.ord_to_term(1u64, &mut term_buffer));
    assert_eq!(term_buffer, b"b");
}

#[test]
fn round_trip_with_permutation_moves_rows() {
    let mut writer = ColumnarWriter::default();
    writer.record_numerical(0, "n", NumericalValue::I64(-4));
    writer.record_numerical(2, "n", NumericalValue::I64(7));
    writer.record_numerical(2, "n", NumericalValue::I64(8));
    writer.record_str(1, "s", "x");
    let mapping = vec![2u32, 0, 1];
    let columnar = writer.serialize(3, Some(&mapping)).unwrap();
    let DynamicColumn::I64(n) = columnar.read_columns("n")[0].open() else { panic!() };
    assert_eq!(n.values_for_doc(2), vec![-4i64]);
    assert_eq!(n.values_for_doc(1), vec![7i64, 8]);
    assert_eq!(n.values_for_doc(0), Vec::<i64>::new());
    let DynamicColumn::Str(s) = columnar.read_columns("s")[0].open() else { panic!() };
    assert_eq!(s.ords().first(0), Some(0));
    assert_eq!(s.ords().first(1), None);
}

#[test]
fn invalid_permutation_is_rejected() {
    let mut writer = ColumnarWriter::default();
    writer.record_bool(0, "b", true);
    let duplicate = vec![0u32, 0];
    assert_eq!(writer.serialize(2, Some(&duplicate)).err(), Some(ColumnarError::InvalidRowPermutation));
    let out_of_range = vec![0u32, 2];
    assert_eq!(writer.serialize(2, Some(&out_of_range)).err(), Some(ColumnarError::InvalidRowPermutation));
    let short = vec![0u32];
    assert_eq!(writer.serialize(2, Some(&short)).err(), Some(ColumnarError::InvalidRowPermutation));
}

#[test]
fn numerical_type_is_the_narrowest() {
    let mut writer = ColumnarWriter::default();
    writer.record_numerical(0, "big", NumericalValue::U64(u64::MAX));
    writer.record_numerical(1, "big", NumericalValue::I64(3));
    writer.record_numerical(0, "neg", NumericalValue::I64(i64::MIN));
    writer.record_numerical(1, "neg", NumericalValue::U64(0));
    let columnar = writer.serialize(2, None).unwrap();
    let DynamicColumn::U64(big) = columnar.read_columns("big")[0].open() else { panic!() };
    assert_eq!(big.first(0), Some(u64::MAX));
    assert_eq!(big.first(1), Some(3));
    assert_eq!(big.get_cardinality(), Cardinality::Required);
    let DynamicColumn::I64(neg) = columnar.read_columns("neg")[0].open() else { panic!() };
    assert_eq!(neg.first(0), Some(i64::MIN));
    assert_eq!(neg.first(1), Some(0));
}

#[test]
fn mixed_extremes_need_a_float_column() {
    let mut writer = ColumnarWriter::default();
    writer.record_numerical(0, "x", NumericalValue::U64(u64::MAX));
    writer.record_numerical(1, "x", NumericalValue::I64(-1));
    assert_eq!(writer.serialize(2, None).err(), Some(ColumnarError::NumericalNeedsFloat));
}

#[test]
fn same_name_different_categories_make_distinct_columns() {
    let mut writer = ColumnarWriter::default();
    writer.record_str(0, "f", "text");
    writer.record_bool(0, "f", true);
    writer.record_datetime(1, "f", DateTime::from_timestamp_secs(1_679_723_993));
    writer.record_numerical(1, "e", NumericalValue::U64(1));
    let columnar = writer.serialize(2, None).unwrap();
    assert_eq!(
        directory(&columnar),
        vec![
            ("e".to_string(), ColumnType::I64),
            ("f".to_string(), ColumnType::Bool),
            ("f".to_string(), ColumnType::DateTime),
            ("f".to_string(), ColumnType::Str),
        ]
    );
    assert_eq!(columnar.read_columns("f").len(), 3);
    let DynamicColumn::DateTime(dt) = columnar.read_columns("f")[1].open() else { panic!() };
    assert_eq!(dt.first(1).map(|d| d.into_timestamp_secs()), Some(1_679_723_993));
    assert_eq!(dt.first(0), None);
}

#[test]
fn directory_does_not_depend_on_record_order() {
    let mut a = ColumnarWriter::default();
    a.record_str(0, "zeta", "1");
    a.record_bool(1, "alpha", false);
    a.record_numerical(1, "mid", NumericalValue::I64(5));
    a.record_bytes(0, "alpha", b"q");
    let mut b = ColumnarWriter::default();
    b.record_bytes(0, "alpha", b"q");
    b.record_numerical(1, "mid", NumericalValue::I64(5));
    b.record_bool(1, "alpha", false);
    b.record_str(0, "zeta", "1");
    let ca = a.serialize(2, None).unwrap();
    let cb = b.serialize(2, None).unwrap();
    assert_eq!(directory(&ca), directory(&cb));
    assert_eq!(directory(&ca)[0], ("alpha".to_string(), ColumnType::Bool));
    assert_eq!(directory(&ca)[1], ("alpha".to_string(), ColumnType::Bytes));
}

#[test]
fn cardinality_is_minimal() {
    assert_eq!(infer_cardinality(&vec![1, 1, 1]), Cardinality::Required);
    assert_eq!(infer_cardinality(&vec![1, 0, 1]), Cardinality::Optional);
    assert_eq!(infer_cardinality(&vec![1, 2, 0]), Cardinality::Multivalued);
    assert_eq!(infer_cardinality(&vec![]), Cardinality::Required);
    let mut writer = ColumnarWriter::default();
    writer.record_bool(0, "b", true);
    writer.record_bool(1, "b", false);
    let columnar = writer.serialize(2, None).unwrap();
    let DynamicColumn::Bool(b) = columnar.read_columns("b")[0].open() else { panic!() };
    assert_eq!(b.get_cardinality(), Cardinality::Required);
    let columnar = writer.serialize(3, None).unwrap();
    let DynamicColumn::Bool(b) = columnar.read_columns("b")[0].open() else { panic!() };
    assert_eq!(b.get_cardinality(), Cardinality::Optional);
}

#[test]
fn dictionary_orders_terms_bytewise() {
    let terms: Vec<Vec<u8>> = vec![b"b".to_vec(), b"ab".to_vec(), b"a".to_vec(), b"b".to_vec(), vec![], vec![255]];
    let dict = Dictionary::build(&terms);
    assert_eq!(dict.num_terms(), 5);
    let mut buf = Vec::new();
    let mut all = Vec::new();
    for ord in 0..5u64 {
        assert!(dict.ord_to_term(ord, &mut buf));
        all.push(buf.clone());
    }
    assert_eq!(all, vec![vec![], b"a".to_vec(), b"ab".to_vec(), b"b".to_vec(), vec![255]]);
    for i in 0..5 {
        for j in 0..5 {
            assert_eq!(compare_bytes(&all[i], &all[j]) == -1, i < j);
        }
    }
    assert_eq!(dict.term_to_ord(b"ab"), Some(2));
    assert_eq!(dict.term_to_ord(b"abc"), None);
    assert!(!dict.ord_to_term(5, &mut buf));
    assert_eq!(buf, vec![255]);
}

#[test]
fn type_and_cardinality_codes() {
    assert_eq!(ColumnType::Str.to_code(), 7);
    assert_eq!(ColumnType::try_from_code(5), Some(ColumnType::IpAddr));
    assert_eq!(ColumnType::try_from_code(8), None);
    assert_eq!(Cardinality::Multivalued.to_code(), 2);
    assert_eq!(Cardinality::try_from_code(1), Some(Cardinality::Optional));
    assert_eq!(Cardinality::try_from_code(3), None);
}

#[test]
fn empty_writer_has_no_columns() {
    let writer = ColumnarWriter::default();
    let columnar = writer.serialize(4, None).unwrap();
    assert_eq!(columnar.num_columns(), 0);
    assert_eq!(columnar.num_rows(), 4);
}
