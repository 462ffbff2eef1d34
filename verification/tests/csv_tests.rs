use transaction_processor::{summaries_from_csv, write_summary_csv, ParseError};

#[test]
fn csv_works() {
    let input = "type, client, tx, amount\ndeposit, 1,   1, 1.0\ndeposit, 2,2,2.0\ndeposit, 1, 3, 2\nwithdrawal, 1, 4, 1.5\nwithdrawal, 2, 5, 3.0\n";
    assert!(summaries_from_csv(input.as_bytes()).is_ok());
}

#[test]
fn process_correctly() {
    let input = "type, client, tx, amount\ndeposit, 1,   1, 1.0\ndeposit, 2,2,2.0\ndeposit, 1, 3, 2\nwithdrawal, 1, 4, 1.5\nwithdrawal, 2, 5, 3.0\n";
    let summaries = summaries_from_csv(input.as_bytes()).unwrap();
    let output = write_summary_csv(&summaries);
    assert_eq!(
        output,
        "client,locked,available,held,total\n1,false,1.5000,0.0000,1.5000\n2,false,2.0000,0.0000,2.0000\n"
            .as_bytes()
    );
}

#[test]
fn handle_dispute_correctly() {
    let input = "type, client, tx, amount\ndeposit, 1, 1, 1.0\ndispute, 1, 1,\nchargeback, 1, 1,\ndeposit, 2, 2, 2.0\ndeposit, 1, 3, 2.0\nwithdrawal, 1, 4, 1.5\nwithdrawal, 2, 5, 3.0\nchargeback, 2, 2,\ndispute, 2, 2,\nresolve, 2, 2,\ndispute, 2, 2,\nwithdrawal, 2, 6, 2\n";
    let summaries = summaries_from_csv(input.as_bytes()).unwrap();
    let output = write_summary_csv(&summaries);
    assert_eq!(
        output,
        "client,locked,available,held,total\n1,true,0.0000,0.0000,0.0000\n2,false,0.0000,0.0000,0.0000\n"
            .as_bytes()
    );
}

#[test]
fn unreadable_input_fails_the_run() {
    let input = b"type,client,tx,amount\n\"deposit,1,1,1.0\n";
    assert_eq!(summaries_from_csv(input), Err(ParseError::Rows));
}

#[test]
fn missing_column_fails_the_run() {
    let input = "type,tx,amount\ndeposit,1,1.0\n";
    assert_eq!(summaries_from_csv(input.as_bytes()), Err(ParseError::MissingField));
}

#[test]
fn unknown_type_fails_the_run() {
    let input = "type,client,tx,amount\ntransfer,1,1,1.0\n";
    assert_eq!(summaries_from_csv(input.as_bytes()), Err(ParseError::UnknownType));
    // the match is on the exact lowercase token
    let upper = "type,client,tx,amount\nDeposit,1,1,1.0\n";
    assert_eq!(summaries_from_csv(upper.as_bytes()), Err(ParseError::UnknownType));
}

#[test]
fn client_beyond_width_fails_the_run() {
    let input = "type,client,tx,amount\ndeposit,70000,1,1.0\n";
    assert_eq!(summaries_from_csv(input.as_bytes()), Err(ParseError::BadClient));
}

#[test]
fn transaction_beyond_width_fails_the_run() {
    let input = "type,client,tx,amount\ndeposit,1,5000000000,1.0\n";
    assert_eq!(summaries_from_csv(input.as_bytes()), Err(ParseError::BadTransaction));
}

#[test]
fn malformed_amount_fails_the_run() {
    let input = "type,client,tx,amount\ndeposit,1,1,1.1.1\n";
    assert_eq!(summaries_from_csv(input.as_bytes()), Err(ParseError::BadAmount));
    let empty = "type,client,tx,amount\ndeposit,1,1,\n";
    assert_eq!(summaries_from_csv(empty.as_bytes()), Err(ParseError::BadAmount));
}

#[test]
fn fields_and_headers_are_trimmed() {
    let input = "  type , client ,  tx ,  amount \n deposit , 1 , 1 , 2.5 \n";
    let summaries = summaries_from_csv(input.as_bytes()).unwrap();
    assert_eq!(summaries.len(), 1);
    assert_eq!(summaries[0].available.render(), "2.5000");
}

#[test]
fn empty_input_gives_empty_report() {
    let summaries = summaries_from_csv(b"").unwrap();
    assert!(summaries.is_empty());
    let output = write_summary_csv(&summaries);
    assert_eq!(output, b"client,locked,available,held,total\n");
}
