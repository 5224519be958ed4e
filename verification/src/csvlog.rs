//! The log file format: UTF-8 comma-separated text with the header
//! `timestamp,application,duration`, one row per `(flush, application)`
//! pair. Application names are free text; a name holding a comma, quote or
//! line break is written quoted, with quotes doubled. The parser accepts
//! exactly what the encoder writes, so reading a log back loses nothing.

use crate::rows::{row_models, Row, RowModel};
use crate::text::{
    all_dec_digits, chars_to_vec, dec_rep, digits_val, is_dec_digit, lemma_dec_rep_correct,
    lemma_digits_canonical, lemma_digits_val_extend, push_dec, starts_with, string_from_chars,
};
use vstd::prelude::*;

verus! {

broadcast use vstd::string::group_string_axioms;

/// The header line, written once, at the first append to an empty file.
pub open spec fn header() -> Seq<char> {
    "timestamp,application,duration\n"@
}

/// Characters that force a field to be written quoted.
pub open spec fn is_field_special(c: char) -> bool {
    c == ',' || c == '"' || c == '\n' || c == '\r'
}

pub open spec fn needs_quoting(s: Seq<char>) -> bool {
    exists|i: int| 0 <= i < s.len() && is_field_special(#[trigger] s[i])
}

/// The field text with each quote doubled.
pub open spec fn escape_quotes(s: Seq<char>) -> Seq<char>
    decreases s.len(),
{
    if s.len() == 0 {
        Seq::<char>::empty()
    } else if s[0] == '"' {
        seq!['"', '"'] + escape_quotes(s.drop_first())
    } else {
        seq![s[0]] + escape_quotes(s.drop_first())
    }
}

/// A field as it stands in the file: quoted exactly when it has to be.
pub open spec fn encode_field(s: Seq<char>) -> Seq<char> {
    if needs_quoting(s) {
        seq!['"'] + escape_quotes(s) + seq!['"']
    } else {
        s
    }
}

/// One row as a line of the file.
pub open spec fn encode_row(r: RowModel) -> Seq<char> {
    dec_rep(r.timestamp as nat) + seq![','] + encode_field(r.application) + seq![','] + dec_rep(
        r.duration as nat,
    ) + seq!['\n']
}

/// A batch of rows, in order.
pub open spec fn encode_rows(rs: Seq<RowModel>) -> Seq<char>
    decreases rs.len(),
{
    if rs.len() == 0 {
        Seq::<char>::empty()
    } else {
        encode_rows(rs.drop_last()) + encode_row(rs.last())
    }
}

/// Whether `c` is the content of a log file holding exactly the rows `rs`:
/// a file that never saw an append is empty; any other well-formed file is
/// the header followed by its rows.
pub open spec fn is_log_content(c: Seq<char>, rs: Seq<RowModel>) -> bool {
    (c == Seq::<char>::empty() && rs == Seq::<RowModel>::empty()) || c == header() + encode_rows(
        rs,
    )
}

/// What one flush appends to the file: the header comes first when the
/// file is still empty and there is at least one row to write; a flush of
/// zero rows appends nothing at all.
pub open spec fn spec_batch(rs: Seq<RowModel>, destination_empty: bool) -> Seq<char> {
    if destination_empty && rs.len() > 0 {
        header() + encode_rows(rs)
    } else {
        encode_rows(rs)
    }
}

/// Encoding distributes over concatenation of row batches.
pub proof fn lemma_encode_rows_concat(a: Seq<RowModel>, b: Seq<RowModel>)
    ensures
        encode_rows(a + b) == encode_rows(a) + encode_rows(b),
    decreases b.len(),
{
    if b.len() == 0 {
        assert(a + b =~= a);
        assert(encode_rows(a) + encode_rows(b) =~= encode_rows(a));
    } else {
        lemma_encode_rows_concat(a, b.drop_last());
        assert((a + b).drop_last() =~= a + b.drop_last());
        assert((a + b).last() == b.last());
        assert(encode_rows(b) == encode_rows(b.drop_last()) + encode_row(b.last()));
        assert(encode_rows(a) + (encode_rows(b.drop_last()) + encode_row(b.last()))
            =~= (encode_rows(a) + encode_rows(b.drop_last())) + encode_row(b.last()));
    }
}

/// Appending one flush to well-formed log content gives the well-formed
/// content of the combined rows: the header appears exactly once, at the
/// first append.
pub proof fn lemma_append_keeps_log_form(c: Seq<char>, rs: Seq<RowModel>, batch: Seq<RowModel>)
    requires
        is_log_content(c, rs),
    ensures
        is_log_content(c + spec_batch(batch, c.len() == 0), rs + batch),
{
    lemma_encode_rows_concat(rs, batch);
    if c == Seq::<char>::empty() && rs == Seq::<RowModel>::empty() {
        assert(rs + batch =~= batch);
        assert(encode_rows(rs) =~= Seq::<char>::empty());
        if batch.len() == 0 {
            assert(c + spec_batch(batch, true) =~= Seq::<char>::empty());
        } else {
            assert(c + spec_batch(batch, true) =~= header() + encode_rows(batch));
        }
    } else {
        assert(c == header() + encode_rows(rs));
        assert(c.len() >= header().len()) by {
            reveal_strlit("timestamp,application,duration\n");
        }
        assert(c.len() > 0) by {
            reveal_strlit("timestamp,application,duration\n");
        }
        assert(c + spec_batch(batch, false) =~= header() + encode_rows(rs + batch));
    }
}

/// Doubling distributes over appending one character.
proof fn lemma_escape_push(s: Seq<char>, c: char)
    ensures
        escape_quotes(s.push(c)) == escape_quotes(s) + (if c == '"' {
            seq!['"', '"']
        } else {
            seq![c]
        }),
    decreases s.len(),
{
    let tail: Seq<char> = if c == '"' {
        seq!['"', '"']
    } else {
        seq![c]
    };
    if s.len() == 0 {
        assert(s.push(c)[0] == c);
        assert(s.push(c).drop_first() =~= Seq::<char>::empty());
        assert(escape_quotes(Seq::<char>::empty()) =~= Seq::<char>::empty());
        assert(escape_quotes(s.push(c)) =~= escape_quotes(s) + tail);
    } else {
        lemma_escape_push(s.drop_first(), c);
        assert(s.push(c)[0] == s[0]);
        assert(s.push(c).drop_first() =~= s.drop_first().push(c));
        if s[0] == '"' {
            assert(seq!['"', '"'] + (escape_quotes(s.drop_first()) + tail) =~= (seq!['"', '"']
                + escape_quotes(s.drop_first())) + tail);
        } else {
            assert(seq![s[0]] + (escape_quotes(s.drop_first()) + tail) =~= (seq![s[0]]
                + escape_quotes(s.drop_first())) + tail);
        }
    }
}

fn is_special(c: char) -> (r: bool)
    ensures
        r == is_field_special(c),
{
    c == ',' || c == '"' || c == '\n' || c == '\r'
}

/// Whether the field must be written quoted.
fn field_needs_quoting(f: &Vec<char>) -> (r: bool)
    ensures
        r == needs_quoting(f@),
{
    let mut i: usize = 0;
    while i < f.len()
        invariant
            0 <= i <= f@.len(),
            forall|j: int| 0 <= j < i ==> !is_field_special(#[trigger] f@[j]),
        decreases f.len() - i,
    {
        if is_special(f[i]) {
            return true;
        }
        i = i + 1;
    }
    false
}

/// Writes one field onto `out` as the file holds it.
fn push_field(out: &mut Vec<char>, application: &String)
    ensures
        final(out)@ == old(out)@ + encode_field(application@),
{
    let mut f = chars_to_vec(application.as_str());
    if !field_needs_quoting(&f) {
        out.append(&mut f);
        return ;
    }
    let ghost base = out@;
    out.push('"');
    let mut i: usize = 0;
    while i < f.len()
        invariant
            0 <= i <= f@.len(),
            f@ == application@,
            out@ == base + seq!['"'] + escape_quotes(f@.take(i as int)),
        decreases f.len() - i,
    {
        let c = f[i];
        proof {
            lemma_escape_push(f@.take(i as int), c);
            assert(f@.take(i as int).push(c) =~= f@.take(i + 1));
        }
        if c == '"' {
            out.push('"');
            out.push('"');
        } else {
            out.push(c);
        }
        proof {
            assert(out@ =~= base + seq!['"'] + escape_quotes(f@.take(i + 1)));
        }
        i = i + 1;
    }
    out.push('"');
    proof {
        assert(f@.take(f@.len() as int) =~= f@);
        assert(out@ =~= base + (seq!['"'] + escape_quotes(application@) + seq!['"']));
    }
}

/// Writes one row onto `out` as one line of the file.
fn push_row(out: &mut Vec<char>, row: &Row)
    ensures
        final(out)@ == old(out)@ + encode_row(row@),
{
    let ghost base = out@;
    push_dec(out, row.timestamp);
    out.push(',');
    push_field(out, &row.application);
    out.push(',');
    push_dec(out, row.duration);
    out.push('\n');
    proof {
        assert(out@ =~= base + encode_row(row@));
    }
}

/// The text one flush appends to the log file: one line per row, preceded
/// by the header when the destination file is still empty and the batch is
/// not. Appending this text to the file is all the write has to do; a
/// batch of zero rows appends nothing, so a flush with nothing accumulated
/// leaves the file untouched.
pub fn encode_batch(rows: &Vec<Row>, destination_empty: bool) -> (s: String)
    ensures
        s@ == spec_batch(row_models(rows@), destination_empty),
{
    let mut out: Vec<char> = Vec::new();
    if destination_empty && rows.len() > 0 {
        let mut h = chars_to_vec("timestamp,application,duration\n");
        out.append(&mut h);
    }
    let ghost head = out@;
    let mut i: usize = 0;
    while i < rows.len()
        invariant
            0 <= i <= rows@.len(),
            head == if destination_empty && rows@.len() > 0 {
                header()
            } else {
                Seq::<char>::empty()
            },
            out@ == head + encode_rows(row_models(rows@).take(i as int)),
        decreases rows.len() - i,
    {
        push_row(&mut out, &rows[i]);
        proof {
            let models = row_models(rows@);
            assert(models.take(i + 1).drop_last() =~= models.take(i as int));
            assert(models.take(i + 1).last() == rows@[i as int]@);
            assert(out@ =~= head + encode_rows(models.take(i + 1)));
        }
        i = i + 1;
    }
    proof {
        assert(row_models(rows@).take(rows@.len() as int) =~= row_models(rows@));
        if !(destination_empty && rows@.len() > 0) {
            assert(out@ =~= encode_rows(row_models(rows@)));
        }
    }
    string_from_chars(&out)
}


/// Doubling distributes over concatenation.
proof fn lemma_escape_concat(a: Seq<char>, b: Seq<char>)
    ensures
        escape_quotes(a + b) == escape_quotes(a) + escape_quotes(b),
    decreases a.len(),
{
    if a.len() == 0 {
        assert(a + b =~= b);
        assert(escape_quotes(a) =~= Seq::<char>::empty());
        assert(escape_quotes(a) + escape_quotes(b) =~= escape_quotes(b));
    } else {
        lemma_escape_concat(a.drop_first(), b);
        assert((a + b)[0] == a[0]);
        assert((a + b).len() > 0);
        assert((a + b).drop_first() =~= a.drop_first() + b);
        if a[0] == '"' {
            assert(seq!['"', '"'] + (escape_quotes(a.drop_first()) + escape_quotes(b))
                =~= (seq!['"', '"'] + escape_quotes(a.drop_first())) + escape_quotes(b));
        } else {
            assert(seq![a[0]] + (escape_quotes(a.drop_first()) + escape_quotes(b)) =~= (seq![a[0]]
                + escape_quotes(a.drop_first())) + escape_quotes(b));
        }
    }
}

/// A canonical decimal number `m` stands at the front of `s`, followed by
/// nothing or by something that is not a digit.
pub open spec fn number_at(s: Seq<char>, m: u64) -> bool {
    let d = dec_rep(m as nat);
    s.len() >= d.len() && s.take(d.len() as int) == d && (s.len() == d.len() || !is_dec_digit(
        s[d.len() as int],
    ))
}

/// An encoded field stands at the front of `s`, followed by a comma.
pub open spec fn field_at(s: Seq<char>, app: Seq<char>) -> bool {
    let e = encode_field(app);
    s.len() > e.len() && s.take(e.len() as int) == e && s[e.len() as int] == ','
}

/// An encoded row stands at the front of `s`.
pub open spec fn row_at(s: Seq<char>, rm: RowModel) -> bool {
    let e = encode_row(rm);
    s.len() >= e.len() && s.take(e.len() as int) == e
}

/// Reads a canonical decimal number: at least one digit, no leading zero,
/// a value that fits in a `u64`. Returns the value and the position just
/// past its digits.
fn parse_canonical_u64(v: &Vec<char>, start: usize) -> (r: Option<(u64, usize)>)
    requires
        start <= v@.len(),
    ensures
        r matches Some((n, end)) ==> start < end <= v@.len() && v@.subrange(
            start as int,
            end as int,
        ) == dec_rep(n as nat) && (end == v@.len() || !is_dec_digit(v@[end as int])),
        forall|m: u64|
            number_at(v@.skip(start as int), m) ==> (r matches Some((n, end)) && n == m && end
                == start + dec_rep(m as nat).len()),
{
    let ghost s = v@.skip(start as int);
    let mut j: usize = start;
    let mut acc: u64 = 0;
    loop
        invariant
            start <= j <= v@.len(),
            s == v@.skip(start as int),
            all_dec_digits(v@.subrange(start as int, j as int)),
            acc == digits_val(v@.subrange(start as int, j as int)),
        ensures
            start <= j <= v@.len(),
            s == v@.skip(start as int),
            all_dec_digits(v@.subrange(start as int, j as int)),
            acc == digits_val(v@.subrange(start as int, j as int)),
            j == v@.len() || !is_dec_digit(v@[j as int]),
        decreases v@.len() - j,
    {
        if j >= v.len() {
            break ;
        }
        let c = v[j];
        if c < '0' || c > '9' {
            break ;
        }
        let dig: u64 = if c == '0' {
            0
        } else if c == '1' {
            1
        } else if c == '2' {
            2
        } else if c == '3' {
            3
        } else if c == '4' {
            4
        } else if c == '5' {
            5
        } else if c == '6' {
            6
        } else if c == '7' {
            7
        } else if c == '8' {
            8
        } else {
            9
        };
        let ghost p = v@.subrange(start as int, j as int);
        let ghost p2 = v@.subrange(start as int, j + 1);
        proof {
            assert(is_dec_digit(c) && crate::text::digit_val(c) == dig);
            assert(p2.drop_last() =~= p);
            assert(p2.last() == c);
            assert(digits_val(p2) == acc * 10 + dig);
        }
        if acc > (u64::MAX - dig) / 10 {
            proof {
                assert(acc * 10 + dig > u64::MAX) by (nonlinear_arith)
                    requires
                        acc > (u64::MAX - dig) / 10,
                        dig <= 9,
                ;
                assert forall|m: u64| number_at(s, m) implies false by {
                    let d = dec_rep(m as nat);
                    lemma_dec_rep_correct(m as nat);
                    assert(j + 1 - start <= d.len()) by {
                        if j + 1 - start > d.len() {
                            assert(s.len() >= j + 1 - start > d.len());
                            assert(!is_dec_digit(s[d.len() as int]));
                            assert(s[d.len() as int] == v@[start + d.len()]);
                            assert(v@[start + d.len()] == p2[d.len() as int]);
                            assert(is_dec_digit(p2[d.len() as int]));
                        }
                    }
                    assert(d.take(p2.len() as int) =~= p2) by {
                        assert(forall|x: int|
                            0 <= x < p2.len() ==> p2[x] == s[x] && #[trigger] d[x] == s[x]);
                    }
                    lemma_digits_val_extend(p2, d);
                    assert(digits_val(d) <= u64::MAX);
                }
            }
            return None;
        }
        acc = acc * 10 + dig;
        j = j + 1;
    }
    let ghost p = v@.subrange(start as int, j as int);
    if j == start {
        proof {
            assert forall|m: u64| number_at(s, m) implies false by {
                let d = dec_rep(m as nat);
                lemma_dec_rep_correct(m as nat);
                assert(s.len() >= d.len() >= 1);
                assert(j < v@.len());
                assert(d[0] == s[0]);
                assert(s[0] == v@[j as int]);
                assert(is_dec_digit(v@[j as int]));
            }
        }
        return None;
    }
    if j - start >= 2 && v[start] == '0' {
        proof {
            assert forall|m: u64| number_at(s, m) implies false by {
                let d = dec_rep(m as nat);
                lemma_dec_rep_correct(m as nat);
                assert(d[0] == s.take(d.len() as int)[0]);
                assert(s[0] == v@[start as int]);
                if m as nat >= 1 {
                    assert(d[0] != '0');
                } else {
                    assert(d =~= seq!['0']);
                    assert(s.len() >= j - start >= 2);
                    assert(!is_dec_digit(s[1]));
                    assert(s[1] == v@[start + 1]);
                    assert(v@[start + 1] == p[1]);
                    assert(is_dec_digit(p[1]));
                }
            }
        }
        return None;
    }
    proof {
        assert(p[0] == v@[start as int]);
        lemma_digits_canonical(p);
        assert forall|m: u64| number_at(s, m) implies (acc == m && j == start + dec_rep(
            m as nat,
        ).len()) by {
            let d = dec_rep(m as nat);
            lemma_dec_rep_correct(m as nat);
            assert(j - start >= d.len()) by {
                if j - start < d.len() {
                    assert(start + d.len() <= v@.len());
                    assert(j < v@.len());
                    assert(d[j - start] == s.take(d.len() as int)[j - start]);
                    assert(s[j - start] == v@[j as int]);
                    assert(is_dec_digit(v@[j as int]));
                }
            }
            assert(j - start <= d.len()) by {
                if j - start > d.len() {
                    assert(s.len() >= j - start > d.len());
                    assert(!is_dec_digit(s[d.len() as int]));
                    assert(s[d.len() as int] == v@[start + d.len()]);
                    assert(v@[start + d.len()] == p[d.len() as int]);
                    assert(is_dec_digit(p[d.len() as int]));
                }
            }
            assert(p =~= d) by {
                assert(forall|x: int|
                    0 <= x < d.len() ==> p[x] == s[x] && #[trigger] d[x] == s[x]);
            }
        }
    }
    Some((acc, j))
}


/// With `k` characters of a quoted field already recovered, what the next
/// one or two characters of the input must be.
proof fn lemma_quoted_shape(s: Seq<char>, app: Seq<char>, k: int)
    requires
        field_at(s, app),
        needs_quoting(app),
        0 <= k <= app.len(),
    ensures
        ({
            let e = encode_field(app);
            let esc = escape_quotes(app);
            let esc_k = escape_quotes(app.take(k));
            let pos = esc_k.len() as int + 1;
            &&& e == seq!['"'] + esc + seq!['"']
            &&& esc == esc_k + escape_quotes(app.skip(k))
            &&& esc_k.len() <= esc.len()
            &&& e.len() == 2 + esc.len()
            &&& s.len() > e.len()
            &&& s[e.len() as int] == ','
            &&& s[0] == '"'
            &&& (k == app.len() ==> pos + 1 == e.len() && s[pos] == '"' && s[pos + 1] == ',')
            &&& (k < app.len() && app[k] == '"' ==> pos + 1 < e.len() && s[pos] == '"' && s[pos
                + 1] == '"')
            &&& (k < app.len() && app[k] != '"' ==> pos < e.len() && s[pos] == app[k])
        }),
{
    let e = encode_field(app);
    let esc = escape_quotes(app);
    let esc_k = escape_quotes(app.take(k));
    let tail = app.skip(k);
    let pos = esc_k.len() as int + 1;
    assert(app.take(k) + tail =~= app);
    lemma_escape_concat(app.take(k), tail);
    assert(forall|x: int| 0 <= x < e.len() ==> s[x] == #[trigger] e[x]) by {
        assert(forall|x: int| 0 <= x < e.len() ==> s.take(e.len() as int)[x] == s[x]);
    }
    assert(e[0] == '"');
    if k == app.len() {
        assert(tail =~= Seq::<char>::empty());
        assert(escape_quotes(Seq::<char>::empty()) =~= Seq::<char>::empty());
        assert(esc =~= esc_k);
        assert(e[pos] == '"');
        assert(s[pos + 1] == s[e.len() as int]);
    } else {
        assert(tail.len() > 0);
        assert(tail[0] == app[k]);
        assert(tail.drop_first() =~= app.skip(k + 1));
        if app[k] == '"' {
            assert(escape_quotes(tail) == seq!['"', '"'] + escape_quotes(tail.drop_first()));
            assert(esc[pos - 1] == '"');
            assert(esc[pos] == '"');
            assert(e[pos] == esc[pos - 1]);
            assert(e[pos + 1] == esc[pos]);
        } else {
            assert(escape_quotes(tail) == seq![tail[0]] + escape_quotes(tail.drop_first()));
            assert(esc[pos - 1] == app[k]);
            assert(e[pos] == esc[pos - 1]);
        }
    }
}

/// In a quoted-field hypothesis the field really does need quoting.
proof fn lemma_field_at_quoted(s: Seq<char>, app: Seq<char>)
    requires
        field_at(s, app),
        s.len() > 0,
        s[0] == '"',
    ensures
        needs_quoting(app),
{
    if !needs_quoting(app) {
        let e = encode_field(app);
        assert(e == app);
        if app.len() == 0 {
            assert(s[e.len() as int] == ',');
        } else {
            assert(app[0] == s.take(e.len() as int)[0]);
            assert(is_field_special(app[0]));
        }
    }
}

/// In a raw-field hypothesis the field needs no quoting.
proof fn lemma_field_at_raw(s: Seq<char>, app: Seq<char>)
    requires
        field_at(s, app),
        s.len() == 0 || s[0] != '"',
    ensures
        !needs_quoting(app),
        encode_field(app) == app,
        s.len() > app.len(),
        forall|x: int| 0 <= x < app.len() ==> s[x] == #[trigger] app[x],
        s[app.len() as int] == ',',
{
    let e = encode_field(app);
    if needs_quoting(app) {
        assert(e == seq!['"'] + escape_quotes(app) + seq!['"']);
        assert(e[0] == '"');
        assert(s.take(e.len() as int)[0] == s[0]);
    }
    assert(e == app);
    assert(forall|x: int| 0 <= x < app.len() ==> s.take(e.len() as int)[x] == s[x]);
}

/// Reads one encoded field; returns its characters and the position just
/// past its encoding, which the caller expects to hold a comma.
#[verifier::rlimit(50)]
fn parse_field(v: &Vec<char>, start: usize) -> (r: Option<(Vec<char>, usize)>)
    requires
        start <= v@.len(),
    ensures
        r matches Some((f, end)) ==> start <= end <= v@.len() && v@.subrange(
            start as int,
            end as int,
        ) == encode_field(f@),
        forall|app: Seq<char>|
            field_at(v@.skip(start as int), app) ==> (r matches Some((f, end)) && f@ == app && end
                == start + encode_field(app).len()),
{
    let ghost s = v@.skip(start as int);
    if start < v.len() && v[start] == '"' {
        let mut out: Vec<char> = Vec::new();
        let mut j: usize = start + 1;
        proof {
            assert forall|app: Seq<char>| field_at(s, app) implies {
                let k = 0int;
                &&& needs_quoting(app)
                &&& k <= app.len()
                &&& Seq::<char>::empty() == app.take(k)
                &&& start + 1 == start + 1 + escape_quotes(app.take(k)).len()
            } by {
                lemma_field_at_quoted(s, app);
                assert(app.take(0) =~= Seq::<char>::empty());
                assert(escape_quotes(Seq::<char>::empty()) =~= Seq::<char>::empty());
            }
            assert(v@.subrange(start + 1, start + 1) =~= escape_quotes(Seq::<char>::empty()));
            assert(escape_quotes(Seq::<char>::empty()) =~= Seq::<char>::empty());
        }
        loop
            invariant
                start + 1 <= j <= v@.len(),
                s == v@.skip(start as int),
                start < v@.len() && v@[start as int] == '"',
                v@.subrange(start + 1, j as int) == escape_quotes(out@),
                forall|app: Seq<char>|
                    #[trigger] field_at(s, app) ==> out@.len() <= app.len() && out@ == app.take(
                        out@.len() as int,
                    ) && j == start + 1 + escape_quotes(app.take(out@.len() as int)).len(),
            decreases v@.len() - j,
        {
            if j >= v.len() {
                proof {
                    assert forall|app: Seq<char>| field_at(s, app) implies false by {
                        lemma_field_at_quoted(s, app);
                        lemma_quoted_shape(s, app, out@.len() as int);
                        assert(escape_quotes(app.take(out@.len() as int)).len() <= escape_quotes(
                            app,
                        ).len());
                        assert(j - start <= 1 + escape_quotes(app).len() < encode_field(
                            app,
                        ).len());
                        assert(v@.len() - start == s.len() > encode_field(app).len());
                    }
                }
                return None;
            }
            let c = v[j];
            let ghost k = out@.len() as int;
            proof {
                assert(v@[j as int] == s[j - start]);
            }
            if c == '"' {
                if j + 1 < v.len() && v[j + 1] == '"' {
                    proof {
                        assert(v@[j + 1] == s[j + 1 - start]);
                    }
                    let ghost prev = out@;
                    out.push('"');
                    proof {
                        lemma_escape_push(prev, '"');
                        assert(v@.subrange(start + 1, j + 2) =~= v@.subrange(start + 1, j as int)
                            + seq!['"', '"']);
                        assert forall|app: Seq<char>| field_at(s, app) implies out@.len()
                            <= app.len() && out@ == app.take(out@.len() as int) && j + 2 == start
                            + 1 + escape_quotes(app.take(out@.len() as int)).len() by {
                            lemma_field_at_quoted(s, app);
                            lemma_quoted_shape(s, app, k);
                            assert(k < app.len() && app[k] == '"') by {
                                if k == app.len() {
                                    assert(s[escape_quotes(app.take(k)).len() as int + 2] == ',');
                                } else {
                                    if app[k] != '"' {
                                        assert(s[escape_quotes(app.take(k)).len() as int + 1] == app[k]);
                                    }
                                }
                            }
                            assert(app.take(k).push('"') =~= app.take(k + 1));
                            lemma_escape_push(app.take(k), '"');
                            assert(out@ =~= app.take(k + 1));
                        }
                    }
                    j = j + 2;
                } else {
                    proof {
                        assert forall|app: Seq<char>| field_at(s, app) implies out@
                            == app && needs_quoting(out@) && j + 1 == start + encode_field(
                            app,
                        ).len() by {
                            lemma_field_at_quoted(s, app);
                            lemma_quoted_shape(s, app, k);
                            assert(k == app.len()) by {
                                if k < app.len() {
                                    if app[k as int] == '"' {
                                        assert(s[escape_quotes(app.take(k)).len() as int + 2]
                                            == '"');
                                        assert(j + 1 < v@.len());
                                        assert(v@[j + 1] == s[j + 1 - start]);
                                    } else {
                                        assert(s[escape_quotes(app.take(k)).len() as int + 1]
                                            == app[k as int]);
                                    }
                                }
                            }
                            assert(out@ =~= app);
                            lemma_escape_concat(app.take(k), app.skip(k));
                        }
                    }
                    if !field_needs_quoting(&out) {
                        return None;
                    }
                    proof {
                        assert(v@.subrange(start as int, j + 1) =~= seq!['"'] + escape_quotes(
                            out@,
                        ) + seq!['"']);
                    }
                    return Some((out, j + 1));
                }
            } else {
                let ghost prev = out@;
                out.push(c);
                proof {
                    lemma_escape_push(prev, c);
                    assert(v@.subrange(start + 1, j + 1) =~= v@.subrange(start + 1, j as int)
                        + seq![c]);
                    assert forall|app: Seq<char>| field_at(s, app) implies out@.len() <= app.len()
                        && out@ == app.take(out@.len() as int) && j + 1 == start + 1
                        + escape_quotes(app.take(out@.len() as int)).len() by {
                        lemma_field_at_quoted(s, app);
                        lemma_quoted_shape(s, app, k);
                        assert(k < app.len() && app[k] == c) by {
                            if k == app.len() {
                                assert(s[escape_quotes(app.take(k)).len() as int + 1] == '"');
                            } else {
                                if app[k] == '"' {
                                    assert(s[escape_quotes(app.take(k)).len() as int + 1] == '"');
                                }
                            }
                        }
                        assert(app.take(k).push(c) =~= app.take(k + 1));
                        lemma_escape_push(app.take(k), c);
                        assert(out@ =~= app.take(k + 1));
                    }
                }
                j = j + 1;
            }
        }
    } else {
        let mut out: Vec<char> = Vec::new();
        let mut j: usize = start;
        proof {
            assert(v@.subrange(start as int, start as int) =~= out@);
        }
        loop
            invariant
                start <= j <= v@.len(),
                s == v@.skip(start as int),
                start == v@.len() || v@[start as int] != '"',
                out@ == v@.subrange(start as int, j as int),
                forall|x: int| 0 <= x < out@.len() ==> !is_field_special(#[trigger] out@[x]),
            ensures
                start <= j <= v@.len(),
                s == v@.skip(start as int),
                start == v@.len() || v@[start as int] != '"',
                out@ == v@.subrange(start as int, j as int),
                forall|x: int| 0 <= x < out@.len() ==> !is_field_special(#[trigger] out@[x]),
                j == v@.len() || v@[j as int] == ',',
            decreases v@.len() - j,
        {
            if j >= v.len() {
                break ;
            }
            let c = v[j];
            if c == ',' {
                break ;
            }
            if c == '"' || c == '\n' || c == '\r' {
                proof {
                    assert(v@[j as int] == s[j - start]);
                    assert forall|app: Seq<char>| field_at(s, app) implies false by {
                        lemma_field_at_raw(s, app);
                        if j - start < app.len() {
                            assert(s[j - start] == app[j - start]);
                            assert(needs_quoting(app));
                        } else if j - start == app.len() {
                            assert(s[j - start] == ',');
                        } else {
                            assert(s[app.len() as int] == ',');
                            assert(s[app.len() as int] == v@[start + app.len()]);
                            assert(v@[start + app.len()] == out@[app.len() as int]);
                            assert(is_field_special(out@[app.len() as int]));
                        }
                    }
                }
                return None;
            }
            out.push(c);
            proof {
                assert(out@ =~= v@.subrange(start as int, j + 1));
            }
            j = j + 1;
        }
        proof {
            assert(!needs_quoting(out@));
            assert forall|app: Seq<char>| field_at(s, app) implies out@ == app && j == start
                + encode_field(app).len() by {
                lemma_field_at_raw(s, app);
                assert(j - start <= app.len()) by {
                    if j - start > app.len() {
                        assert(s[app.len() as int] == ',');
                        assert(s[app.len() as int] == v@[start + app.len()]);
                        assert(v@[start + app.len()] == out@[app.len() as int]);
                        assert(is_field_special(out@[app.len() as int]));
                    }
                }
                assert(j - start >= app.len()) by {
                    if j - start < app.len() {
                        assert(start + app.len() < v@.len());
                        assert(j < v@.len());
                        assert(v@[j as int] == s[j - start]);
                        assert(s[j - start] == app[j - start]);
                        assert(v@[j as int] == ',');
                        assert(is_field_special(app[j - start]));
                        assert(needs_quoting(app));
                    }
                }
                assert(out@ =~= app) by {
                    assert(forall|x: int|
                        0 <= x < app.len() ==> out@[x] == v@[start + x] && s[x]
                            == #[trigger] app[x] && s[x] == v@[start + x]);
                }
            }
        }
        return Some((out, j));
    }
}


/// Every encoded row is at least a few characters long.
proof fn lemma_encode_row_len(rm: RowModel)
    ensures
        encode_row(rm).len() >= 5,
{
    lemma_dec_rep_correct(rm.timestamp as nat);
    lemma_dec_rep_correct(rm.duration as nat);
}

/// Decomposes a batch's encoding at its first row.
proof fn lemma_encode_rows_first(rs: Seq<RowModel>)
    requires
        rs.len() > 0,
    ensures
        encode_rows(rs) == encode_row(rs[0]) + encode_rows(rs.drop_first()),
    decreases rs.len(),
{
    if rs.len() == 1 {
        assert(rs.drop_last() =~= Seq::<RowModel>::empty());
        assert(rs.drop_first() =~= Seq::<RowModel>::empty());
        assert(encode_rows(Seq::<RowModel>::empty()) =~= Seq::<char>::empty());
        assert(rs.last() == rs[0]);
        assert(encode_rows(rs) =~= encode_row(rs[0]));
        assert(encode_row(rs[0]) + Seq::<char>::empty() =~= encode_row(rs[0]));
    } else {
        lemma_encode_rows_first(rs.drop_last());
        assert(rs.drop_last()[0] == rs[0]);
        assert(rs.drop_last().drop_first() =~= rs.drop_first().drop_last());
        assert(rs.drop_first().last() == rs.last());
        assert(rs.drop_first().len() > 0);
        assert(encode_rows(rs.drop_first()) == encode_rows(rs.drop_first().drop_last())
            + encode_row(rs.drop_first().last()));
        assert((encode_row(rs[0]) + encode_rows(rs.drop_last().drop_first())) + encode_row(
            rs.last(),
        ) =~= encode_row(rs[0]) + (encode_rows(rs.drop_first().drop_last()) + encode_row(
            rs.last(),
        )));
    }
}

/// Where each part of an encoded row stands in the text it heads.
proof fn lemma_row_at_parts(s: Seq<char>, rm: RowModel)
    requires
        row_at(s, rm),
    ensures
        ({
            let d1 = dec_rep(rm.timestamp as nat);
            let f = encode_field(rm.application);
            let d2 = dec_rep(rm.duration as nat);
            let p1 = d1.len() as int;
            let p2 = p1 + 1 + f.len();
            let p3 = p2 + 1;
            let p4 = p3 + d2.len();
            &&& encode_row(rm).len() == p4 + 1
            &&& number_at(s, rm.timestamp)
            &&& s[p1] == ','
            &&& field_at(s.skip(p1 + 1), rm.application)
            &&& s[p2] == ','
            &&& number_at(s.skip(p3), rm.duration)
            &&& s[p4] == '\n'
        }),
{
    let e = encode_row(rm);
    let d1 = dec_rep(rm.timestamp as nat);
    let f = encode_field(rm.application);
    let d2 = dec_rep(rm.duration as nat);
    let p1 = d1.len() as int;
    let p2 = p1 + 1 + f.len();
    let p3 = p2 + 1;
    let p4 = p3 + d2.len();
    assert(e.len() == p4 + 1);
    assert(forall|x: int| 0 <= x < e.len() ==> s[x] == #[trigger] e[x]) by {
        assert(forall|x: int| 0 <= x < e.len() ==> s.take(e.len() as int)[x] == s[x]);
    }
    assert(forall|x: int| 0 <= x < d1.len() ==> e[x] == #[trigger] d1[x]);
    assert(e[p1] == ',');
    assert(forall|y: int| 0 <= y < f.len() ==> e[p1 + 1 + y] == #[trigger] f[y]);
    assert(e[p2] == ',');
    assert(forall|y: int| 0 <= y < d2.len() ==> e[p3 + y] == #[trigger] d2[y]);
    assert(e[p4] == '\n');
    assert(',' as int == 44 && '\n' as int == 10);
    assert(number_at(s, rm.timestamp)) by {
        assert(s.take(p1) =~= d1) by {
            assert(forall|x: int| 0 <= x < d1.len() ==> s.take(p1)[x] == s[x]);
        }
        assert(!is_dec_digit(s[p1]));
    }
    assert(field_at(s.skip(p1 + 1), rm.application)) by {
        let t = s.skip(p1 + 1);
        assert(t.len() == s.len() - p1 - 1 > f.len());
        assert(t.take(f.len() as int) =~= f) by {
            assert(forall|y: int|
                0 <= y < f.len() ==> t.take(f.len() as int)[y] == t[y] && #[trigger] t[y] == s[p1
                    + 1 + y]);
        }
        assert(t[f.len() as int] == s[p2]);
    }
    assert(number_at(s.skip(p3), rm.duration)) by {
        let u = s.skip(p3);
        assert(u.len() == s.len() - p3 >= d2.len() + 1);
        assert(u.take(d2.len() as int) =~= d2) by {
            assert(forall|y: int|
                0 <= y < d2.len() ==> u.take(d2.len() as int)[y] == u[y] && #[trigger] u[y] == s[p3
                    + y]);
        }
        assert(u[d2.len() as int] == s[p4]);
        assert(!is_dec_digit(u[d2.len() as int]));
    }
}

/// Reads one row (one line) of the log.
#[verifier::rlimit(50)]
fn parse_row(v: &Vec<char>, start: usize) -> (r: Option<(Row, usize)>)
    requires
        start <= v@.len(),
    ensures
        r matches Some((row, end)) ==> start < end <= v@.len() && v@.subrange(
            start as int,
            end as int,
        ) == encode_row(row@),
        forall|rm: RowModel|
            row_at(v@.skip(start as int), rm) ==> (r matches Some((row, end)) && row@ == rm && end
                == start + encode_row(rm).len()),
{
    let ghost s = v@.skip(start as int);
    let ts_result = parse_canonical_u64(v, start);
    if ts_result.is_none() {
        proof {
            assert forall|rm: RowModel| row_at(s, rm) implies false by {
                lemma_row_at_parts(s, rm);
            }
        }
        return None;
    }
    let (ts, i1) = ts_result.unwrap();
    proof {
        assert forall|rm: RowModel| row_at(s, rm) implies ts == rm.timestamp && i1 == start
            + dec_rep(rm.timestamp as nat).len() by {
            lemma_row_at_parts(s, rm);
        }
    }
    if i1 >= v.len() || v[i1] != ',' {
        proof {
            assert forall|rm: RowModel| row_at(s, rm) implies false by {
                lemma_row_at_parts(s, rm);
                let p1 = dec_rep(rm.timestamp as nat).len() as int;
                assert(s[p1] == v@[i1 as int]);
                assert(s.len() > p1 + 1);
            }
        }
        return None;
    }
    let field_result = parse_field(v, i1 + 1);
    if field_result.is_none() {
        proof {
            assert forall|rm: RowModel| row_at(s, rm) implies false by {
                lemma_row_at_parts(s, rm);
                let p1 = dec_rep(rm.timestamp as nat).len() as int;
                assert(s.skip(p1 + 1) =~= v@.skip(i1 + 1));
            }
        }
        return None;
    }
    let (field, i2) = field_result.unwrap();
    proof {
        assert forall|rm: RowModel| row_at(s, rm) implies field@ == rm.application && i2 == i1 + 1
            + encode_field(rm.application).len() by {
            lemma_row_at_parts(s, rm);
            let p1 = dec_rep(rm.timestamp as nat).len() as int;
            assert(s.skip(p1 + 1) =~= v@.skip(i1 + 1));
        }
    }
    if i2 >= v.len() || v[i2] != ',' {
        proof {
            assert forall|rm: RowModel| row_at(s, rm) implies false by {
                lemma_row_at_parts(s, rm);
                let p2 = dec_rep(rm.timestamp as nat).len() as int + 1 + encode_field(
                    rm.application,
                ).len() as int;
                assert(s[p2] == v@[i2 as int]);
                assert(s.len() > p2 + 1);
            }
        }
        return None;
    }
    let dur_result = parse_canonical_u64(v, i2 + 1);
    if dur_result.is_none() {
        proof {
            assert forall|rm: RowModel| row_at(s, rm) implies false by {
                lemma_row_at_parts(s, rm);
                let p3 = dec_rep(rm.timestamp as nat).len() as int + 2 + encode_field(
                    rm.application,
                ).len() as int;
                assert(s.skip(p3) =~= v@.skip(i2 + 1));
            }
        }
        return None;
    }
    let (dur, i3) = dur_result.unwrap();
    proof {
        assert forall|rm: RowModel| row_at(s, rm) implies dur == rm.duration && i3 == i2 + 1
            + dec_rep(rm.duration as nat).len() by {
            lemma_row_at_parts(s, rm);
            let p3 = dec_rep(rm.timestamp as nat).len() as int + 2 + encode_field(
                rm.application,
            ).len() as int;
            assert(s.skip(p3) =~= v@.skip(i2 + 1));
        }
    }
    if i3 >= v.len() || v[i3] != '\n' {
        proof {
            assert forall|rm: RowModel| row_at(s, rm) implies false by {
                lemma_row_at_parts(s, rm);
                let p4 = dec_rep(rm.timestamp as nat).len() as int + 2 + encode_field(
                    rm.application,
                ).len() as int + dec_rep(rm.duration as nat).len() as int;
                assert(s[p4] == v@[i3 as int]);
                assert(s.len() >= p4 + 1);
            }
        }
        return None;
    }
    let row = Row { timestamp: ts, application: string_from_chars(&field), duration: dur };
    let end = i3 + 1;
    proof {
        assert(v@.subrange(start as int, end as int) =~= encode_row(row@)) by {
            assert(v@.subrange(start as int, i1 as int) == dec_rep(ts as nat));
            assert(v@.subrange(i1 + 1, i2 as int) == encode_field(field@));
            assert(v@.subrange(i2 + 1, i3 as int) == dec_rep(dur as nat));
            assert(forall|x: int|
                start <= x < end ==> #[trigger] v@.subrange(start as int, end as int)[x - start]
                    == v@[x]);
            assert(forall|x: int|
                start <= x < i1 ==> v@.subrange(start as int, i1 as int)[x - start] == #[trigger] v@[x]);
            assert(forall|x: int|
                i1 + 1 <= x < i2 ==> v@.subrange(i1 + 1, i2 as int)[x - i1 - 1] == #[trigger] v@[x]);
            assert(forall|x: int|
                i2 + 1 <= x < i3 ==> v@.subrange(i2 + 1, i3 as int)[x - i2 - 1] == #[trigger] v@[x]);
        }
        assert forall|rm: RowModel| row_at(s, rm) implies row@ == rm && end == start + encode_row(
            rm,
        ).len() by {
            lemma_row_at_parts(s, rm);
        }
    }
    Some((row, end))
}

/// Reads a whole log file back into its rows.
///
/// The two clauses together say the parser is exact: it accepts precisely
/// the texts the encoder can have produced, and on those returns exactly
/// the rows that were written — reading the log back loses nothing.
pub fn parse_log(content: &str) -> (r: Option<Vec<Row>>)
    ensures
        r matches Some(rows) ==> is_log_content(content@, row_models(rows@)),
        forall|rs: Seq<RowModel>|
            is_log_content(content@, rs) ==> (r matches Some(rows) && row_models(rows@) == rs),
{
    let v = chars_to_vec(content);
    if v.len() == 0 {
        let rows: Vec<Row> = Vec::new();
        proof {
            assert(row_models(rows@) =~= Seq::<RowModel>::empty());
            assert(content@ =~= Seq::<char>::empty());
            assert forall|rs: Seq<RowModel>| is_log_content(content@, rs) implies row_models(
                rows@,
            ) == rs by {
                if content@ == header() + encode_rows(rs) {
                    reveal_strlit("timestamp,application,duration\n");
                }
            }
        }
        return Some(rows);
    }
    let h = chars_to_vec("timestamp,application,duration\n");
    if !starts_with(&v, &h) {
        proof {
            assert forall|rs: Seq<RowModel>| is_log_content(content@, rs) implies false by {
                assert(content@ == header() + encode_rows(rs));
                assert(v@.len() >= header().len());
                assert(v@.subrange(0, header().len() as int) =~= header()) by {
                    assert(forall|x: int|
                        0 <= x < header().len() ==> v@.subrange(0, header().len() as int)[x]
                            == #[trigger] v@[x] && v@[x] == header()[x]);
                }
            }
        }
        return None;
    }
    let mut rows: Vec<Row> = Vec::new();
    let mut i: usize = h.len();
    proof {
        assert(v@.subrange(header().len() as int, i as int) =~= encode_rows(row_models(rows@)))
            by {
            assert(row_models(rows@) =~= Seq::<RowModel>::empty());
        }
        assert forall|rs: Seq<RowModel>| is_log_content(v@, rs) implies rows@.len() <= rs.len()
            && row_models(rows@) == rs.take(rows@.len() as int) && v@.skip(i as int)
            == encode_rows(rs.skip(rows@.len() as int)) by {
            assert(v@ == header() + encode_rows(rs));
            assert(row_models(rows@) =~= rs.take(0));
            assert(rs.skip(0) =~= rs);
            assert(v@.skip(i as int) =~= encode_rows(rs));
        }
    }
    while i < v.len()
        invariant
            header().len() <= i <= v@.len(),
            v@ == content@,
            h@ == header(),
            v@.subrange(0, header().len() as int) == header(),
            v@.subrange(header().len() as int, i as int) == encode_rows(row_models(rows@)),
            forall|rs: Seq<RowModel>|
                is_log_content(v@, rs) ==> rows@.len() <= rs.len() && row_models(rows@) == rs.take(
                    rows@.len() as int,
                ) && v@.skip(i as int) == encode_rows(rs.skip(rows@.len() as int)),
        decreases v@.len() - i,
    {
        let ghost k = rows@.len() as int;
        let row_result = parse_row(&v, i);
        if row_result.is_none() {
            proof {
                assert forall|rs: Seq<RowModel>| is_log_content(v@, rs) implies false by {
                    let tail = rs.skip(k);
                    assert(v@.skip(i as int) == encode_rows(tail));
                    assert(v@.skip(i as int).len() > 0);
                    assert(tail.len() > 0);
                    lemma_encode_rows_first(tail);
                    assert(row_at(v@.skip(i as int), tail[0])) by {
                        lemma_encode_row_len(tail[0]);
                        let e0 = encode_row(tail[0]);
                        assert(v@.skip(i as int).take(e0.len() as int) =~= e0);
                    }
                }
            }
            return None;
        }
        let (row, end) = row_result.unwrap();
        let ghost prev = rows@;
        rows.push(row);
        proof {
            assert(row_models(rows@) =~= row_models(prev).push(row@));
            assert(row_models(rows@).drop_last() =~= row_models(prev));
            assert(row_models(rows@).last() == row@);
            assert(v@.subrange(header().len() as int, end as int) =~= encode_rows(
                row_models(rows@),
            )) by {
                assert(v@.subrange(i as int, end as int) == encode_row(row@));
                assert(encode_rows(row_models(rows@)) == encode_rows(row_models(prev))
                    + encode_row(row@));
                assert(forall|x: int|
                    header().len() <= x < i ==> v@.subrange(header().len() as int, i as int)[x
                        - header().len()] == #[trigger] v@[x]);
                assert(forall|x: int|
                    i <= x < end ==> v@.subrange(i as int, end as int)[x - i] == #[trigger] v@[x]);
            }
            assert forall|rs: Seq<RowModel>| is_log_content(v@, rs) implies rows@.len() <= rs.len()
                && row_models(rows@) == rs.take(rows@.len() as int) && v@.skip(end as int)
                == encode_rows(rs.skip(rows@.len() as int)) by {
                let tail = rs.skip(k);
                assert(v@.skip(i as int) == encode_rows(tail));
                assert(v@.skip(i as int).len() > 0);
                assert(tail.len() > 0);
                lemma_encode_rows_first(tail);
                assert(row_at(v@.skip(i as int), tail[0])) by {
                    lemma_encode_row_len(tail[0]);
                    let e0 = encode_row(tail[0]);
                    assert(v@.skip(i as int).take(e0.len() as int) =~= e0);
                }
                assert(row@ == tail[0] && end == i + encode_row(tail[0]).len());
                assert(tail[0] == rs[k]);
                assert(row_models(rows@) =~= rs.take(k + 1)) by {
                    assert(forall|x: int|
                        0 <= x < k ==> row_models(prev)[x] == #[trigger] rs.take(k)[x]);
                }
                assert(v@.skip(end as int) =~= encode_rows(rs.skip(k + 1))) by {
                    assert(tail.drop_first() =~= rs.skip(k + 1));
                    let e0 = encode_row(tail[0]);
                    assert(v@.skip(i as int).skip(e0.len() as int) =~= v@.skip(end as int));
                    assert((e0 + encode_rows(tail.drop_first())).skip(e0.len() as int)
                        =~= encode_rows(tail.drop_first()));
                }
            }
        }
        i = end;
    }
    proof {
        assert(v@ =~= header() + encode_rows(row_models(rows@))) by {
            assert(forall|x: int|
                0 <= x < header().len() ==> v@.subrange(0, header().len() as int)[x]
                    == #[trigger] v@[x]);
            assert(forall|x: int|
                header().len() <= x < v@.len() ==> v@.subrange(header().len() as int, i as int)[x
                    - header().len()] == #[trigger] v@[x]);
        }
        assert forall|rs: Seq<RowModel>| is_log_content(v@, rs) implies row_models(rows@) == rs by {
            let k = rows@.len() as int;
            let tail = rs.skip(k);
            assert(v@.skip(i as int) =~= Seq::<char>::empty());
            assert(encode_rows(tail).len() == 0);
            assert(tail.len() == 0) by {
                if tail.len() > 0 {
                    lemma_encode_row_len(tail.last());
                    assert(encode_rows(tail) == encode_rows(tail.drop_last()) + encode_row(
                        tail.last(),
                    ));
                }
            }
            assert(rs.take(k) =~= rs);
        }
    }
    Some(rows)
}

} // verus!\n