use csv_batch::{
    check_header, decode, ingest_rows, is_valid_name, parse_u64, process_csv, process_rows,
    read_csv_in_batches,
    transform_batch, Aggregator, Batcher, DecodeError, IngestError, Record,
};

fn sample() -> &'static [u8] {
    b"id,value,label\n1,10.5,Positive\n2,5.0,Negative\n3,7.8,Neutral\n"
}

fn large_csv(num_rows: usize) -> String {
    let mut text = String::from("id,value,label\n");
    for i in 1..=num_rows {
        text.push_str(&format!("{},{},Row{}\n", i, i as f64 * 1.1, i));
    }
    text
}

fn strings(items: &[&str]) -> Vec<String> {
    items.iter().map(|s| s.to_string()).collect()
}

fn all_records(batches: Vec<Vec<Record>>) -> Vec<Record> {
    batches.into_iter().flatten().collect()
}

#[test]
fn test_read_csv_to_hashmap() {
    let result = read_csv_in_batches(sample(), 1000);
    assert!(result.is_ok());
    let data = all_records(result.unwrap());
    assert_eq!(data.len(), 3);
    assert_eq!(data[0].get("id").unwrap(), "1");
    assert_eq!(data[0].get("value").unwrap(), "10.5");
    assert_eq!(data[0].get("label").unwrap(), "Positive");
    assert_eq!(data[1].get("id").unwrap(), "2");
    assert_eq!(data[1].get("value").unwrap(), "5.0");
    assert_eq!(data[1].get("label").unwrap(), "Negative");
    assert_eq!(data[2].get("id").unwrap(), "3");
    assert_eq!(data[2].get("value").unwrap(), "7.8");
    assert_eq!(data[2].get("label").unwrap(), "Neutral");
}

#[test]
fn test_missing_headers() {
    let result = read_csv_in_batches(b"1,10.5,Positive\n2,5.0,Negative\n3,7.8,Neutral\n", 1000);
    assert!(result.is_err());
    assert_eq!(result.unwrap_err(), IngestError::HeaderMissing { column: 0 });
}

#[test]
fn test_edge_cases() {
    let result = read_csv_in_batches(b"id,value,label\n1,0,Zero\n2,-5.0,Negative\n3,1000000000,Large\n", 1000);
    assert!(result.is_ok());
    let data = all_records(result.unwrap());
    assert_eq!(data[0].get("value").unwrap(), "0");
    assert_eq!(data[1].get("value").unwrap(), "-5.0");
    assert_eq!(data[2].get("value").unwrap(), "1000000000");
}

#[test]
fn test_read_csv_in_batches_multithreading() {
    let total_rows = 1050;
    let batch_size = 100;
    let text = large_csv(total_rows);
    let batches = read_csv_in_batches(text.as_bytes(), batch_size).expect("Unable to read test CSV file");
    let mut aggregate = Aggregator::new();
    for batch in batches {
        aggregate.append(transform_batch(batch));
    }
    let final_data = aggregate.into_records();
    assert_eq!(final_data.len(), total_rows);
    for (i, row) in final_data.iter().enumerate() {
        assert_eq!(row.get("id").unwrap(), &(i + 1).to_string());
        assert_eq!(row.get("processed").unwrap(), "true");
    }
}

#[test]
fn test_read_csv_in_batches() {
    let total_rows = 1050;
    let batch_size = 100;
    let text = large_csv(total_rows);
    let result = read_csv_in_batches(text.as_bytes(), batch_size);
    assert!(result.is_ok());
    let mut total_processed_rows = 0;
    for batch in result.unwrap() {
        if total_processed_rows + batch.len() < total_rows {
            assert_eq!(batch.len(), batch_size);
        }
        total_processed_rows += batch.len();
    }
    assert_eq!(total_processed_rows, total_rows);
}

#[test]
fn eleven_batches_for_1050_rows() {
    let text = large_csv(1050);
    let batches = read_csv_in_batches(text.as_bytes(), 100).unwrap();
    assert_eq!(batches.len(), 11);
    for b in &batches[..10] {
        assert_eq!(b.len(), 100);
    }
    assert_eq!(batches[10].len(), 50);
    assert_eq!(batches[3][0].get("id").unwrap(), "301");
    assert_eq!(batches[10][49].get("id").unwrap(), "1050");
}

#[test]
fn batch_counts_round_up() {
    for (rows, size, count, last) in [(10usize, 5usize, 2usize, 5usize), (11, 5, 3, 1), (1, 7, 1, 1), (7, 1, 7, 1)] {
        let text = large_csv(rows);
        let batches = read_csv_in_batches(text.as_bytes(), size).unwrap();
        assert_eq!(batches.len(), count);
        assert_eq!(batches[count - 1].len(), last);
    }
}

#[test]
fn process_csv_marks_every_row() {
    let text = large_csv(1050);
    let records = process_csv(text.as_bytes(), 100).unwrap();
    assert_eq!(records.len(), 1050);
    for (i, row) in records.iter().enumerate() {
        assert_eq!(row.get("id").unwrap(), &(i + 1).to_string());
        assert_eq!(row.get("label").unwrap(), &format!("Row{}", i + 1));
        assert_eq!(row.get("processed").unwrap(), "true");
        assert_eq!(row.len(), 4);
    }
}

#[test]
fn completion_order_does_not_change_the_bag() {
    let text = large_csv(250);
    let forward = process_csv(text.as_bytes(), 40).unwrap();
    let mut batches = read_csv_in_batches(text.as_bytes(), 40).unwrap();
    batches.reverse();
    let mut aggregate = Aggregator::new();
    for batch in batches {
        aggregate.append(transform_batch(batch));
    }
    assert_eq!(aggregate.len(), 250);
    let mut ids: Vec<usize> = aggregate
        .records()
        .iter()
        .map(|r| r.get("id").unwrap().parse().unwrap())
        .collect();
    assert_ne!(ids[0], 1);
    ids.sort();
    let expected: Vec<usize> = forward.iter().map(|r| r.get("id").unwrap().parse().unwrap()).collect();
    assert_eq!(ids, expected);
}

#[test]
fn header_only_gives_no_records() {
    let batches = read_csv_in_batches(b"id,value,label\n", 10).unwrap();
    assert_eq!(batches.len(), 0);
    let records = process_csv(b"id,value,label\n", 10).unwrap();
    assert_eq!(records.len(), 0);
}

#[test]
fn empty_source_has_no_header() {
    assert_eq!(read_csv_in_batches(b"", 10).unwrap_err(), IngestError::EmptyHeader);
    assert_eq!(process_csv(b"", 10).unwrap_err(), IngestError::EmptyHeader);
}

#[test]
fn short_row_is_a_field_count_mismatch() {
    let text = b"id,value,label\n1,10.5,Positive\n2,5.0\n3,7.8,Neutral,extra\n";
    assert_eq!(
        read_csv_in_batches(text, 10).unwrap_err(),
        IngestError::FieldCountMismatch { row: 2, expected: 3, found: 2 }
    );
    assert_eq!(
        process_csv(text, 10).unwrap_err(),
        IngestError::FieldCountMismatch { row: 2, expected: 3, found: 2 }
    );
}

#[test]
fn invalid_utf8_is_malformed() {
    let text: &[u8] = b"id,label\n1,\xff\xfe\n";
    assert_eq!(read_csv_in_batches(text, 10).unwrap_err(), IngestError::Malformed);
}

#[test]
fn quoted_fields_are_unquoted() {
    let text = b"id,label\n1,\"a,b\"\n2,\"say \"\"hi\"\"\"\n";
    let data = all_records(read_csv_in_batches(text, 10).unwrap());
    assert_eq!(data.len(), 2);
    assert_eq!(data[0].get("label").unwrap(), "a,b");
    assert_eq!(data[1].get("label").unwrap(), "say \"hi\"");
}

#[test]
fn header_checks() {
    assert_eq!(check_header(&strings(&["id", "value"])), Ok(()));
    assert_eq!(check_header(&Vec::new()), Err(IngestError::EmptyHeader));
    assert_eq!(check_header(&strings(&["id", "", "x"])), Err(IngestError::HeaderMissing { column: 1 }));
    assert_eq!(check_header(&strings(&["id", "-5", "3"])), Err(IngestError::HeaderMissing { column: 1 }));
    assert!(is_valid_name(&"_x".to_string()));
    assert!(is_valid_name(&"名前".to_string()));
    assert!(!is_valid_name(&"7up".to_string()));
    assert!(!is_valid_name(&".5".to_string()));
    assert!(!is_valid_name(&"+1".to_string()));
    assert!(!is_valid_name(&String::new()));
}

#[test]
fn decode_pairs_header_and_values() {
    let header = strings(&["id", "label"]);
    let rec = decode(&header, &strings(&["7", "seven"])).unwrap();
    assert_eq!(rec.get("id").unwrap(), "7");
    assert_eq!(rec.get("label").unwrap(), "seven");
    assert!(rec.get("value").is_none());
    assert_eq!(rec.fields()[1].name, "label");
    assert_eq!(
        decode(&header, &strings(&["7"])).err(),
        Some(DecodeError::FieldCountMismatch { expected: 2, found: 1 })
    );
}

#[test]
fn repeated_name_keeps_the_last_value() {
    let rec = decode(&strings(&["a", "a"]), &strings(&["1", "2"])).unwrap();
    assert_eq!(rec.get("a").unwrap(), "2");
}

#[test]
fn insert_replaces_or_appends() {
    let mut rec = Record::new();
    assert_eq!(rec.len(), 0);
    rec.insert("a".to_string(), "1".to_string());
    rec.insert("b".to_string(), "2".to_string());
    rec.insert("a".to_string(), "3".to_string());
    assert_eq!(rec.len(), 2);
    assert_eq!(rec.get("a").unwrap(), "3");
    assert_eq!(rec.fields()[0].name, "a");
}

#[test]
fn processed_field_overrides_an_existing_column() {
    let rows = vec![strings(&["id", "processed"]), strings(&["1", "no"])];
    let records = process_rows(&rows, 5).unwrap();
    assert_eq!(records[0].get("processed").unwrap(), "true");
    assert_eq!(records[0].len(), 2);
}

#[test]
fn ingest_rows_reports_the_first_fault() {
    let rows = vec![strings(&["id", "v"]), strings(&["1", "a"]), strings(&["2"]), strings(&["3", "c", "d"])];
    assert_eq!(
        ingest_rows(&rows, 2).unwrap_err(),
        IngestError::FieldCountMismatch { row: 2, expected: 2, found: 1 }
    );
    let rows = vec![strings(&["id", "9"]), strings(&["2"])];
    assert_eq!(ingest_rows(&rows, 2).unwrap_err(), IngestError::HeaderMissing { column: 1 });
    assert_eq!(ingest_rows(&Vec::new(), 2).unwrap_err(), IngestError::EmptyHeader);
}

#[test]
fn batcher_groups_in_order() {
    let header = strings(&["id"]);
    let mut batcher = Batcher::new(3);
    for i in 0..7 {
        batcher.push(decode(&header, &vec![i.to_string()]).unwrap());
    }
    let batches = batcher.finish();
    assert_eq!(batches.iter().map(|b| b.len()).collect::<Vec<_>>(), vec![3, 3, 1]);
    assert_eq!(batches[1][2].get("id").unwrap(), "5");
    assert_eq!(Batcher::new(4).finish().len(), 0);
}

#[test]
fn aggregate_size_is_the_sum_of_batches() {
    let header = strings(&["id"]);
    let mut aggregate = Aggregator::new();
    assert_eq!(aggregate.len(), 0);
    let batch: Vec<Record> = (0..4).map(|i| decode(&header, &vec![i.to_string()]).unwrap()).collect();
    aggregate.append(batch);
    aggregate.append(Vec::new());
    aggregate.append(vec![decode(&header, &strings(&["9"])).unwrap()]);
    assert_eq!(aggregate.len(), 5);
    assert_eq!(aggregate.records()[4].get("id").unwrap(), "9");
}

#[test]
fn transform_adds_the_marker() {
    let header = strings(&["id"]);
    let out = transform_batch(vec![decode(&header, &strings(&["1"])).unwrap()]);
    assert_eq!(out.len(), 1);
    assert_eq!(out[0].get("processed").unwrap(), "true");
    assert_eq!(out[0].get("id").unwrap(), "1");
}

#[test]
fn parse_u64_reads_decimal_digits() {
    assert_eq!(parse_u64(&"0".to_string()), Ok(0));
    assert_eq!(parse_u64(&"1050".to_string()), Ok(1050));
    assert_eq!(parse_u64(&"007".to_string()), Ok(7));
    assert_eq!(parse_u64(&"18446744073709551615".to_string()), Ok(u64::MAX));
    assert_eq!(parse_u64(&"18446744073709551616".to_string()), Err(DecodeError::TypeConversion));
    assert_eq!(parse_u64(&"99999999999999999999x".to_string()), Err(DecodeError::TypeConversion));
    assert_eq!(parse_u64(&String::new()), Err(DecodeError::TypeConversion));
    assert_eq!(parse_u64(&"12a".to_string()), Err(DecodeError::TypeConversion));
    assert_eq!(parse_u64(&"-5".to_string()), Err(DecodeError::TypeConversion));
    assert_eq!(parse_u64(&"\u{662}".to_string()), Err(DecodeError::TypeConversion));
}

#[test]
fn typed_field_access() {
    let data = all_records(read_csv_in_batches(sample(), 10).unwrap());
    assert_eq!(data[2].get_u64("id"), Ok(3));
    assert_eq!(data[2].get_u64("label"), Err(DecodeError::TypeConversion));
    assert_eq!(data[2].get_u64("value"), Err(DecodeError::TypeConversion));
    assert_eq!(data[2].get_u64("missing"), Err(DecodeError::MissingField));
}

#[test]
fn ids_match_row_positions() {
    let text = large_csv(1050);
    let records = process_csv(text.as_bytes(), 100).unwrap();
    for (i, row) in records.iter().enumerate() {
        assert_eq!(row.get_u64("id"), Ok(i as u64 + 1));
    }
}
