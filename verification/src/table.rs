//! Reading events from and writing summaries to comma-separated text. The
//! row splitting itself is the csv crate's; every interpretation of a field
//! is verified here.
use crate::balance::{parse_amount, render_spec, Balance};
use crate::ledger::{
    spec_aggregate, spec_summary, states_wf, AccountModel, AccountStates, AccountSummary, Action,
    ClientId, TransactionId,
};
use crate::text::{append_uint, dec_str, trim_spec, trimmed_eq, parse_bounded_uint, uint_value};
use vstd::prelude::*;

verus! {

/// The fatal errors of a run: the input could not be read as rows, a needed
/// field is missing, the type token is unrecognised, or a field is malformed.
#[derive(Clone, Copy, Debug, PartialEq, Eq, Structural)]
pub enum ParseError {
    Rows,
    MissingField,
    UnknownType,
    BadClient,
    BadTransaction,
    BadAmount,
}

/// What the reader yields on the given bytes: the header row and the records,
/// or nothing when the input is not well-formed comma-separated text.
pub uninterp spec fn csv_rows_of(b: Seq<u8>) -> Option<(Seq<Seq<char>>, Seq<Seq<Seq<char>>>)>;

/// Relies on csv::Reader: splits the bytes into a header row and records;
/// the outcome depends on the bytes alone.
#[verifier::external_body]
fn read_csv_rows(input: &[u8]) -> (r: Option<(Vec<String>, Vec<Vec<String>>)>)
    ensures
        match r {
            Some(t) => csv_rows_of(input@) == Some((t.0.deep_view(), t.1.deep_view())),
            None => csv_rows_of(input@) is None,
        },
{
    let mut rdr = csv::ReaderBuilder::new().from_reader(input);
    let headers: Vec<String> = match rdr.headers() {
        Ok(h) => h.iter().map(|f| f.to_string()).collect(),
        Err(_) => return None,
    };
    let mut rows: Vec<Vec<String>> = Vec::new();
    for rec in rdr.records() {
        match rec {
            Ok(row) => rows.push(row.iter().map(|f| f.to_string()).collect()),
            Err(_) => return None,
        }
    }
    Some((headers, rows))
}

/// The bytes that the writer produces for the given records.
pub uninterp spec fn csv_encoding_of(rows: Seq<Seq<Seq<char>>>) -> Seq<u8>;

/// Relies on csv::Writer: encodes the records as comma-separated rows, one
/// per line; the outcome depends on the records alone.
#[verifier::external_body]
fn write_csv_rows(rows: &Vec<Vec<String>>) -> (r: Vec<u8>)
    ensures
        r@ == csv_encoding_of(rows.deep_view()),
{
    let mut w = csv::WriterBuilder::new().from_writer(Vec::new());
    for row in rows {
        let _ = w.write_record(row);
    }
    w.into_inner().unwrap_or_default()
}

/// The position of the column whose trimmed name equals `name`.
pub open spec fn find_col_spec(h: Seq<Seq<char>>, name: Seq<char>) -> Option<int>
    decreases h.len(),
{
    if h.len() == 0 {
        None
    } else if trim_spec(h[0]) == name {
        Some(0)
    } else {
        match find_col_spec(h.drop_first(), name) {
            Some(i) => Some(i + 1),
            None => None,
        }
    }
}

proof fn lemma_find_col_at(h: Seq<Seq<char>>, name: Seq<char>, j: int)
    requires
        0 <= j < h.len(),
        trim_spec(h[j]) == name,
        forall|k: int| 0 <= k < j ==> trim_spec(#[trigger] h[k]) != name,
    ensures
        find_col_spec(h, name) == Some(j),
    decreases j,
{
    if j > 0 {
        lemma_find_col_at(h.drop_first(), name, j - 1);
    }
}

proof fn lemma_find_col_none(h: Seq<Seq<char>>, name: Seq<char>)
    requires
        forall|k: int| 0 <= k < h.len() ==> trim_spec(#[trigger] h[k]) != name,
    ensures
        find_col_spec(h, name) is None,
    decreases h.len(),
{
    if h.len() > 0 {
        lemma_find_col_none(h.drop_first(), name);
    }
}

/// The position of the column whose trimmed name equals `name`.
fn find_col(h: &Vec<String>, name: &str) -> (r: Option<usize>)
    ensures
        match r {
            Some(j) => find_col_spec(h.deep_view(), name@) == Some(j as int),
            None => find_col_spec(h.deep_view(), name@) is None,
        },
{
    let ghost hd = h.deep_view();
    let n: usize = h.len();
    let mut i: usize = 0;
    while i < n
        invariant
            0 <= i <= n,
            n == h@.len(),
            hd == h.deep_view(),
            hd.len() == n,
            forall|k: int| 0 <= k < i ==> trim_spec(#[trigger] hd[k]) != name@,
        decreases n - i,
    {
        proof {
            assert(hd[i as int] == h@[i as int]@);
        }
        if trimmed_eq(h[i].as_str(), name) {
            proof {
                lemma_find_col_at(hd, name@, i as int);
            }
            return Some(i);
        }
        i = i + 1;
    }
    proof {
        lemma_find_col_none(hd, name@);
    }
    None
}

/// The field a column position selects, if the row has it.
pub open spec fn field_of(row: Seq<Seq<char>>, idx: Option<int>) -> Option<Seq<char>> {
    match idx {
        Some(i) => if 0 <= i < row.len() {
            Some(row[i])
        } else {
            None
        },
        None => None,
    }
}

/// The client id a record names, or why it has none.
pub open spec fn spec_client(h: Seq<Seq<char>>, row: Seq<Seq<char>>) -> Result<
    ClientId,
    ParseError,
> {
    match field_of(row, find_col_spec(h, "client"@)) {
        None => Err(ParseError::MissingField),
        Some(f) => match uint_value(trim_spec(f)) {
            Some(v) => if v <= u16::MAX {
                Ok(ClientId(v as u16))
            } else {
                Err(ParseError::BadClient)
            },
            None => Err(ParseError::BadClient),
        },
    }
}

/// The transaction id a record names, or why it has none.
pub open spec fn spec_tx(h: Seq<Seq<char>>, row: Seq<Seq<char>>) -> Result<
    TransactionId,
    ParseError,
> {
    match field_of(row, find_col_spec(h, "tx"@)) {
        None => Err(ParseError::MissingField),
        Some(f) => match uint_value(trim_spec(f)) {
            Some(v) => if v <= u32::MAX {
                Ok(TransactionId(v as u32))
            } else {
                Err(ParseError::BadTransaction)
            },
            None => Err(ParseError::BadTransaction),
        },
    }
}

/// The amount a record names, or why it has none.
pub open spec fn spec_amount(h: Seq<Seq<char>>, row: Seq<Seq<char>>) -> Result<
    Balance,
    ParseError,
> {
    match field_of(row, find_col_spec(h, "amount"@)) {
        None => Err(ParseError::MissingField),
        Some(f) => match parse_amount(f) {
            Some(u) => Ok(Balance(u)),
            None => Err(ParseError::BadAmount),
        },
    }
}

/// The event one record denotes under the given header: the trimmed type
/// token picks the kind; client and tx parse as bounded integers; deposit
/// and withdrawal also take an amount.
pub open spec fn row_action(h: Seq<Seq<char>>, row: Seq<Seq<char>>) -> Result<
    Action,
    ParseError,
> {
    match field_of(row, find_col_spec(h, "type"@)) {
        None => Err(ParseError::MissingField),
        Some(ty) => {
            let tt = trim_spec(ty);
            if tt == "deposit"@ || tt == "withdrawal"@ || tt == "dispute"@ || tt == "resolve"@
                || tt == "chargeback"@ {
                match (spec_client(h, row), spec_tx(h, row)) {
                    (Ok(client), Ok(transaction)) => {
                        if tt == "deposit"@ {
                            match spec_amount(h, row) {
                                Ok(amount) => Ok(Action::Deposit { client, transaction, amount }),
                                Err(e) => Err(e),
                            }
                        } else if tt == "withdrawal"@ {
                            match spec_amount(h, row) {
                                Ok(amount) => Ok(
                                    Action::Withdrawal { client, transaction, amount },
                                ),
                                Err(e) => Err(e),
                            }
                        } else if tt == "dispute"@ {
                            Ok(Action::Dispute { client, transaction })
                        } else if tt == "resolve"@ {
                            Ok(Action::Resolve { client, transaction })
                        } else {
                            Ok(Action::Chargeback { client, transaction })
                        }
                    },
                    (Err(e), _) => Err(e),
                    (_, Err(e)) => Err(e),
                }
            } else {
                Err(ParseError::UnknownType)
            }
        },
    }
}

/// Reads the field a column position selects, if the row has it.
fn field_at<'a>(row: &'a Vec<String>, idx: Option<usize>) -> (r: Option<&'a String>)
    ensures
        match r {
            Some(f) => field_of(row.deep_view(), spec_idx(idx)) == Some(f@),
            None => field_of(row.deep_view(), spec_idx(idx)) is None,
        },
{
    match idx {
        Some(i) => {
            if i < row.len() {
                proof {
                    assert(row.deep_view()[i as int] == row@[i as int]@);
                }
                Some(&row[i])
            } else {
                None
            }
        },
        None => None,
    }
}

/// The ghost image of an optional position.
pub open spec fn spec_idx(idx: Option<usize>) -> Option<int> {
    match idx {
        Some(i) => Some(i as int),
        None => None,
    }
}

/// Parses the client field of a record.
fn parse_client(h: &Vec<String>, row: &Vec<String>) -> (r: Result<ClientId, ParseError>)
    ensures
        r == spec_client(h.deep_view(), row.deep_view()),
{
    let idx = find_col(h, "client");
    match field_at(row, idx) {
        None => Err(ParseError::MissingField),
        Some(f) => {
            match parse_bounded_uint(f.as_str(), 65535) {
                Some(v) => Ok(ClientId(v as u16)),
                None => Err(ParseError::BadClient),
            }
        },
    }
}

/// Parses the transaction-id field of a record.
fn parse_tx(h: &Vec<String>, row: &Vec<String>) -> (r: Result<TransactionId, ParseError>)
    ensures
        r == spec_tx(h.deep_view(), row.deep_view()),
{
    let idx = find_col(h, "tx");
    match field_at(row, idx) {
        None => Err(ParseError::MissingField),
        Some(f) => {
            match parse_bounded_uint(f.as_str(), 4294967295) {
                Some(v) => Ok(TransactionId(v as u32)),
                None => Err(ParseError::BadTransaction),
            }
        },
    }
}

/// Parses the amount field of a record.
fn parse_amount_field(h: &Vec<String>, row: &Vec<String>) -> (r: Result<Balance, ParseError>)
    ensures
        r == spec_amount(h.deep_view(), row.deep_view()),
{
    let idx = find_col(h, "amount");
    match field_at(row, idx) {
        None => Err(ParseError::MissingField),
        Some(f) => {
            match Balance::from_str(f.as_str()) {
                Ok(b) => Ok(b),
                Err(_) => Err(ParseError::BadAmount),
            }
        },
    }
}

/// Builds the event one record denotes under the given header.
fn action_from_row(h: &Vec<String>, row: &Vec<String>) -> (r: Result<Action, ParseError>)
    ensures
        r == row_action(h.deep_view(), row.deep_view()),
{
    let tyidx = find_col(h, "type");
    let ty: &String = match field_at(row, tyidx) {
        Some(f) => f,
        None => {
            return Err(ParseError::MissingField);
        },
    };
    let is_deposit = trimmed_eq(ty.as_str(), "deposit");
    let is_withdrawal = trimmed_eq(ty.as_str(), "withdrawal");
    let is_dispute = trimmed_eq(ty.as_str(), "dispute");
    let is_resolve = trimmed_eq(ty.as_str(), "resolve");
    let is_chargeback = trimmed_eq(ty.as_str(), "chargeback");
    if !(is_deposit || is_withdrawal || is_dispute || is_resolve || is_chargeback) {
        return Err(ParseError::UnknownType);
    }
    let client = match parse_client(h, row) {
        Ok(c) => c,
        Err(e) => {
            return Err(e);
        },
    };
    let transaction = match parse_tx(h, row) {
        Ok(t) => t,
        Err(e) => {
            return Err(e);
        },
    };
    if is_deposit {
        match parse_amount_field(h, row) {
            Ok(amount) => Ok(Action::Deposit { client, transaction, amount }),
            Err(e) => Err(e),
        }
    } else if is_withdrawal {
        match parse_amount_field(h, row) {
            Ok(amount) => Ok(Action::Withdrawal { client, transaction, amount }),
            Err(e) => Err(e),
        }
    } else if is_dispute {
        Ok(Action::Dispute { client, transaction })
    } else if is_resolve {
        Ok(Action::Resolve { client, transaction })
    } else {
        Ok(Action::Chargeback { client, transaction })
    }
}

/// The events a table denotes, or its first error, scanning rows in order.
pub open spec fn actions_of(h: Seq<Seq<char>>, rows: Seq<Seq<Seq<char>>>) -> Result<
    Seq<Action>,
    ParseError,
>
    decreases rows.len(),
{
    if rows.len() == 0 {
        Ok(Seq::empty())
    } else {
        match actions_of(h, rows.drop_last()) {
            Err(e) => Err(e),
            Ok(s) => match row_action(h, rows.last()) {
                Ok(a) => Ok(s.push(a)),
                Err(e) => Err(e),
            },
        }
    }
}

proof fn lemma_actions_err_propagates(
    h: Seq<Seq<char>>,
    rows: Seq<Seq<Seq<char>>>,
    j: int,
    e: ParseError,
)
    requires
        0 <= j <= rows.len(),
        actions_of(h, rows.take(j)) == Err::<Seq<Action>, ParseError>(e),
    ensures
        actions_of(h, rows) == Err::<Seq<Action>, ParseError>(e),
    decreases rows.len() - j,
{
    if j < rows.len() {
        assert(rows.take(j + 1).drop_last() =~= rows.take(j));
        lemma_actions_err_propagates(h, rows, j + 1, e);
    } else {
        assert(rows.take(j) =~= rows);
    }
}

/// What a whole input denotes: its rows, their events in order, and the
/// report of the ledger they build; or the first error on the way.
pub open spec fn summaries_of_bytes(b: Seq<u8>) -> Result<Seq<AccountSummary>, ParseError> {
    match csv_rows_of(b) {
        None => Err(ParseError::Rows),
        Some(t) => match actions_of(t.0, t.1) {
            Err(e) => Err(e),
            Ok(acts) => Ok(
                spec_aggregate(acts).map_values(|a: AccountModel| spec_summary(a)),
            ),
        },
    }
}

/// Reads events from comma-separated bytes, feeds them through a fresh
/// ledger in order, and reports one row per client ascending by client id.
/// Any row that fails to read or parse fails the whole run.
pub fn summaries_from_csv(input: &[u8]) -> (r: Result<Vec<AccountSummary>, ParseError>)
    ensures
        match r {
            Ok(v) => summaries_of_bytes(input@) == Ok::<Seq<AccountSummary>, ParseError>(v@),
            Err(e) => summaries_of_bytes(input@) == Err::<Seq<AccountSummary>, ParseError>(e),
        },
{
    let table: (Vec<String>, Vec<Vec<String>>) = match read_csv_rows(input) {
        Some(t) => t,
        None => {
            return Err(ParseError::Rows);
        },
    };
    let headers = table.0;
    let rows = table.1;
    let ghost hd = headers.deep_view();
    let ghost rd = rows.deep_view();
    let mut states = AccountStates::new();
    let ghost mut acts: Seq<Action> = Seq::empty();
    let n: usize = rows.len();
    proof {
        assert(rd.take(0) =~= Seq::<Seq<Seq<char>>>::empty());
        assert(rd.len() == n);
    }
    let mut i: usize = 0;
    while i < n
        invariant
            0 <= i <= n,
            n == rows@.len(),
            hd == headers.deep_view(),
            rd == rows.deep_view(),
            rd.len() == n,
            csv_rows_of(input@) == Some((hd, rd)),
            actions_of(hd, rd.take(i as int)) == Ok::<Seq<Action>, ParseError>(acts),
            states_wf(states@),
            states@ == spec_aggregate(acts),
        decreases n - i,
    {
        proof {
            assert(rd[i as int] == rows@[i as int].deep_view());
        }
        let act: Action = match action_from_row(&headers, &rows[i]) {
            Ok(a) => a,
            Err(e) => {
                proof {
                    assert(rd.take(i + 1).drop_last() =~= rd.take(i as int));
                    assert(rd.take(i + 1).last() == rd[i as int]);
                    assert(actions_of(hd, rd.take(i + 1)) == Err::<Seq<Action>, ParseError>(e));
                    lemma_actions_err_propagates(hd, rd, i + 1, e);
                }
                return Err(e);
            },
        };
        states.process(act);
        proof {
            assert(rd.take(i + 1).drop_last() =~= rd.take(i as int));
            assert(rd.take(i + 1).last() == rd[i as int]);
            let acts0 = acts;
            acts = acts.push(act);
            assert(acts.drop_last() =~= acts0);
            assert(acts.last() == act);
            assert(spec_aggregate(acts) == states@);
        }
        i = i + 1;
    }
    proof {
        assert(rd.take(n as int) =~= rd);
    }
    Ok(states.summary())
}

/// The header row of the report.
pub open spec fn header_row() -> Seq<Seq<char>> {
    seq!["client"@, "locked"@, "available"@, "held"@, "total"@]
}

/// The text fields of one report row.
pub open spec fn summary_row(s: AccountSummary) -> Seq<Seq<char>> {
    seq![
        dec_str(s.client.0 as int),
        if s.locked {
            "true"@
        } else {
            "false"@
        },
        render_spec(s.available.0 as int),
        render_spec(s.held.0 as int),
        render_spec(s.total.0 as int),
    ]
}

/// The full table a report denotes: the header row, then one row per entry.
pub open spec fn summary_rows(ss: Seq<AccountSummary>) -> Seq<Seq<Seq<char>>> {
    seq![header_row()] + ss.map_values(|s: AccountSummary| summary_row(s))
}

/// Encodes the report as comma-separated text: a header row, then one row
/// per account in the given order, amounts in canonical four-decimal form.
pub fn write_summary_csv(summaries: &Vec<AccountSummary>) -> (r: Vec<u8>)
    ensures
        r@ == csv_encoding_of(summary_rows(summaries@)),
{
    let mut rows: Vec<Vec<String>> = Vec::new();
    let mut hdr: Vec<String> = Vec::new();
    hdr.push(String::from_str("client"));
    hdr.push(String::from_str("locked"));
    hdr.push(String::from_str("available"));
    hdr.push(String::from_str("held"));
    hdr.push(String::from_str("total"));
    proof {
        assert(hdr.deep_view() =~= header_row());
    }
    rows.push(hdr);
    proof {
        assert(rows.deep_view() =~= summary_rows(summaries@.take(0)));
    }
    let n: usize = summaries.len();
    let mut i: usize = 0;
    while i < n
        invariant
            0 <= i <= n,
            n == summaries@.len(),
            rows.deep_view() == summary_rows(summaries@.take(i as int)),
        decreases n - i,
    {
        let s = summaries[i];
        let mut row: Vec<String> = Vec::new();
        let mut cid = String::from_str("");
        proof {
            reveal_strlit("");
        }
        append_uint(&mut cid, s.client.0 as u128);
        proof {
            assert(cid@ =~= dec_str(s.client.0 as int));
        }
        row.push(cid);
        row.push(String::from_str(if s.locked {
            "true"
        } else {
            "false"
        }));
        row.push(s.available.render());
        row.push(s.held.render());
        row.push(s.total.render());
        let ghost rows0 = rows.deep_view();
        rows.push(row);
        proof {
            assert(row.deep_view() =~= summary_row(s));
            assert(rows.deep_view() =~= rows0.push(row.deep_view()));
            assert(summaries@.take(i + 1) =~= summaries@.take(i as int).push(s));
            assert(summaries@.take(i + 1).map_values(|x: AccountSummary| summary_row(x))
                =~= summaries@.take(i as int).map_values(|x: AccountSummary| summary_row(x)).push(
                summary_row(s),
            ));
            assert(summary_rows(summaries@.take(i + 1)) =~= rows0.push(summary_row(s)));
            assert(rows.deep_view() =~= summary_rows(summaries@.take(i + 1)));
        }
        i = i + 1;
    }
    proof {
        assert(summaries@.take(n as int) =~= summaries@);
    }
    write_csv_rows(&rows)
}

} // verus!
