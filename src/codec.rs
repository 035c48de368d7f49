//! The data file: one record per line, `id,name,email`, under a header line.

use vstd::prelude::*;
use crate::record::{parse_record, record_of_line, ParseError, Record, RecordView};
use crate::store::{ids_ascending, Records};
use crate::text::{
    all_digits, chars_of, free_of, int_chars, int_text, int_value, is_digit, lemma_decimal,
    lemma_int_text_value, lemma_split_concat, lemma_split_free, lemma_split_len, split_chars,
    split_on, string_of,
};

verus! {

/// The header line that opens every saved file, newline included.
pub open spec fn header_text() -> Seq<char> {
    header_body().push('\n')
}

/// The header line without its newline.
pub open spec fn header_body() -> Seq<char> {
    seq!['i', 'd', ',', 'n', 'a', 'm', 'e', ',', 'e', 'm', 'a', 'i', 'l']
}

/// The email field as saved: empty where there is no email.
pub open spec fn email_field(x: RecordView) -> Seq<char> {
    match x.email {
        Some(e) => e,
        None => Seq::<char>::empty(),
    }
}

/// The saved line of one record, without its newline.
pub open spec fn line_body(x: RecordView) -> Seq<char> {
    int_text(x.id as int).push(',') + x.name.push(',') + email_field(x)
}

/// The saved line of one record; an absent email is an empty field.
pub open spec fn line_text(x: RecordView) -> Seq<char> {
    line_body(x).push('\n')
}

/// The saved lines of a sequence of records, in that order.
pub open spec fn lines_text(s: Seq<RecordView>) -> Seq<char>
    decreases s.len(),
{
    if s.len() == 0 {
        Seq::<char>::empty()
    } else {
        lines_text(s.drop_last()) + line_text(s.last())
    }
}

/// The whole content of a saved file.
pub open spec fn file_text(s: Seq<RecordView>) -> Seq<char> {
    header_text() + lines_text(s)
}

/// `x` is read from the line at index `i`, and no later line holds a
/// record with the same id (a later line overwrites an earlier one).
pub open spec fn survives(lines: Seq<Seq<char>>, i: int, x: RecordView) -> bool {
    &&& 0 <= i < lines.len()
    &&& record_of_line(lines[i]) == Some(x)
    &&& forall|j: int|
        i < j < lines.len() ==> !(#[trigger] record_of_line(lines[j]) matches Some(y) && y.id
            == x.id)
}

/// The records that loading these lines keeps.
pub open spec fn loaded(lines: Seq<Seq<char>>, x: RecordView) -> bool {
    exists|i: int| survives(lines, i, x)
}

/// The non-empty lines that hold no record, with their line numbers from 1.
pub open spec fn failed_lines(lines: Seq<Seq<char>>) -> Seq<(int, Seq<char>)>
    decreases lines.len(),
{
    if lines.len() == 0 {
        Seq::empty()
    } else {
        let prev = failed_lines(lines.drop_last());
        let l = lines.last();
        if l.len() > 0 && record_of_line(l) is None {
            prev.push((lines.len() as int, l))
        } else {
            prev
        }
    }
}

/// A line of the file that holds no record.
#[derive(Debug)]
pub struct LineFailure {
    /// The line's number, counted from 1.
    pub line_number: usize,
    pub error: ParseError,
    pub line: String,
}

pub open spec fn failure_view(f: LineFailure) -> (int, Seq<char>) {
    (f.line_number as int, f.line@)
}

proof fn lemma_loaded_step(lines: Seq<Seq<char>>, l: Seq<char>, x: RecordView)
    ensures
        loaded(lines.push(l), x) <==> (record_of_line(l) == Some(x) || (loaded(lines, x) && !(
        record_of_line(l) matches Some(y) && y.id == x.id))),
{
    let ls = lines.push(l);
    let n = lines.len() as int;
    if loaded(ls, x) {
        let i = choose|i: int| survives(ls, i, x);
        if i < n {
            assert(ls[n] == l);
            if !(record_of_line(l) matches Some(y) && y.id == x.id) {
                assert forall|j: int| i < j < lines.len() implies !(#[trigger] record_of_line(
                    lines[j],
                ) matches Some(y) && y.id == x.id) by {
                    assert(ls[j] == lines[j]);
                }
                assert(survives(lines, i, x));
            }
        }
    }
    if record_of_line(l) == Some(x) {
        assert(survives(ls, n, x));
    }
    if loaded(lines, x) && !(record_of_line(l) matches Some(y) && y.id == x.id) {
        let i = choose|i: int| survives(lines, i, x);
        assert forall|j: int| i < j < ls.len() implies !(#[trigger] record_of_line(
            ls[j],
        ) matches Some(y) && y.id == x.id) by {
            if j < n {
                assert(ls[j] == lines[j]);
            }
        }
        assert(survives(ls, i, x));
    }
}

/// Reads a whole file's content: every line that holds a record is added
/// to the store, a later line replacing an earlier one with the same id;
/// lines that do not parse are skipped. Where `verbose` is set, each
/// non-empty line that fails is also returned with its number and error.
pub fn parse_records(records: &str, verbose: bool) -> (r: (Records, Vec<LineFailure>))
    ensures
        r.0.wf(),
        forall|x: RecordView|
            #![trigger r.0@.contains(x)]
            r.0@.contains(x) <==> loaded(split_on(records@, '\n'), x),
        !verbose ==> r.1@.len() == 0,
        verbose ==> r.1@.map_values(|f: LineFailure| failure_view(f)) == failed_lines(
            split_on(records@, '\n'),
        ),
{
    let content = chars_of(records);
    let lines = split_chars(&content, '\n');
    let ghost ls = split_on(records@, '\n');
    let mut recs = Records::new();
    let mut failures: Vec<LineFailure> = Vec::new();
    let mut num: usize = 0;
    while num < lines.len()
        invariant
            lines@.map_values(|f: Vec<char>| f@) == ls,
            num <= ls.len(),
            recs.wf(),
            forall|x: RecordView|
                #![trigger recs@.contains(x)]
                recs@.contains(x) <==> loaded(ls.subrange(0, num as int), x),
            !verbose ==> failures@.len() == 0,
            verbose ==> failures@.map_values(|f: LineFailure| failure_view(f)) == failed_lines(
                ls.subrange(0, num as int),
            ),
        decreases ls.len() - num,
    {
        let ghost pre = ls.subrange(0, num as int);
        let ghost l = ls[num as int];
        assert(ls.subrange(0, num + 1) =~= pre.push(l));
        assert(lines@[num as int]@ == l);
        let ghost old_failures = failures@.map_values(|f: LineFailure| failure_view(f));
        proof {
            assert(pre.push(l).drop_last() =~= pre);
        }
        if lines[num].len() > 0 {
            let text = string_of(&lines[num]);
            match parse_record(text.as_str()) {
                Ok(rec) => {
                    recs.add(rec);
                    proof {
                        assert forall|x: RecordView|
                            #![trigger recs@.contains(x)]
                            recs@.contains(x) <==> loaded(pre.push(l), x) by {
                            lemma_loaded_step(pre, l, x);
                        }
                    }
                },
                Err(e) => {
                    proof {
                        assert forall|x: RecordView|
                            #![trigger recs@.contains(x)]
                            recs@.contains(x) <==> loaded(pre.push(l), x) by {
                            lemma_loaded_step(pre, l, x);
                        }
                    }
                    if verbose {
                        failures.push(LineFailure { line_number: num + 1, error: e, line: text });
                        assert(failures@.map_values(|f: LineFailure| failure_view(f))
                            =~= old_failures.push((num + 1, l)));
                    }
                },
            }
        } else {
            proof {
                assert forall|x: RecordView|
                    #![trigger recs@.contains(x)]
                    recs@.contains(x) <==> loaded(pre.push(l), x) by {
                    lemma_loaded_step(pre, l, x);
                }
            }
        }
        num = num + 1;
    }
    assert(ls.subrange(0, ls.len() as int) =~= ls);
    (recs, failures)
}

/// Appends the saved line of `rec`.
fn push_line(out: &mut Vec<char>, rec: &Record)
    ensures
        final(out)@ == old(out)@ + line_text(rec@),
{
    let ghost start = old(out)@;
    let mut id = int_chars(rec.id);
    out.append(&mut id);
    out.push(',');
    let mut name = chars_of(rec.name.as_str());
    out.append(&mut name);
    out.push(',');
    match &rec.email {
        Some(e) => {
            let mut email = chars_of(e.as_str());
            out.append(&mut email);
        },
        None => {},
    }
    out.push('\n');
    assert(out@ =~= start + line_text(rec@));
}

/// The full content of the saved file: the header line, then one line per
/// record in ascending id order. Consumes the store.
pub fn render_records(records: Records) -> (r: String)
    ensures
        r@ == file_text(records@),
{
    let ghost s = records@;
    let recs = records.into_vec();
    let mut out: Vec<char> = vec!['i', 'd', ',', 'n', 'a', 'm', 'e', ',', 'e', 'm', 'a', 'i', 'l', '\n'];
    assert(out@ =~= header_text() + lines_text(s.subrange(0, 0)));
    let mut i: usize = 0;
    while i < recs.len()
        invariant
            recs@.map_values(|x: Record| x@) == s,
            i <= s.len(),
            out@ == header_text() + lines_text(s.subrange(0, i as int)),
        decreases s.len() - i,
    {
        assert(recs@[i as int]@ == s[i as int]);
        push_line(&mut out, &recs[i]);
        assert(s.subrange(0, i + 1).drop_last() =~= s.subrange(0, i as int));
        i = i + 1;
    }
    assert(s.subrange(0, s.len() as int) =~= s);
    string_of(&out)
}

/// Saving is a function of the store's contents: two stores that hold the
/// same records are saved as the same text.
pub proof fn lemma_save_deterministic(a: Seq<RecordView>, b: Seq<RecordView>)
    requires
        a == b,
    ensures
        file_text(a) == file_text(b),
{
}

/// A record that the file format can hold: a non-empty name, an email that
/// is absent or non-empty, and neither holding a comma or a newline.
pub open spec fn storable(x: RecordView) -> bool {
    &&& x.name.len() > 0
    &&& free_of(x.name, ',')
    &&& free_of(x.name, '\n')
    &&& email_field(x).len() > 0 || x.email is None
    &&& free_of(email_field(x), ',')
    &&& free_of(email_field(x), '\n')
}

proof fn lemma_int_text_plain(v: i64)
    ensures
        free_of(int_text(v as int), ','),
        free_of(int_text(v as int), '\n'),
        int_text(v as int).len() > 0,
{
    if v < 0 {
        lemma_decimal((-v) as nat);
        let t = int_text(v as int);
        assert forall|i: int| 1 <= i < t.len() implies is_digit(t[i]) by {
            assert(t[i] == crate::text::decimal((-v) as nat)[i - 1]);
        }
    } else {
        lemma_decimal(v as nat);
    }
}

/// The saved line of a storable record reads back as that record.
proof fn lemma_line_reads_back(x: RecordView)
    requires
        storable(x),
    ensures
        record_of_line(line_body(x)) == Some(x),
        free_of(line_body(x), '\n'),
{
    let it = int_text(x.id as int);
    let e = email_field(x);
    lemma_int_text_plain(x.id);
    lemma_int_text_value(x.id);
    lemma_split_free(it, ',');
    lemma_split_free(x.name, ',');
    lemma_split_free(e, ',');
    lemma_split_concat(x.name, e, ',');
    lemma_split_concat(it, x.name.push(',') + e, ',');
    let f = split_on(line_body(x), ',');
    assert(line_body(x) =~= it.push(',') + (x.name.push(',') + e));
    assert(f =~= seq![it, x.name, e]);
    assert(line_body(x).len() > 0);
    assert(crate::record::optional_field(f, 2) == x.email);
    assert forall|i: int| 0 <= i < line_body(x).len() implies line_body(x)[i] != '\n' by {
        let lb = line_body(x);
        if i < it.len() {
            assert(lb[i] == it[i]);
        } else if i == it.len() {
        } else if i < it.len() + 1 + x.name.len() {
            assert(lb[i] == x.name[i - it.len() - 1]);
        } else if i == it.len() + 1 + x.name.len() {
        } else {
            assert(lb[i] == e[i - it.len() - 2 - x.name.len()]);
        }
    }
}

proof fn lemma_header_no_record()
    ensures
        record_of_line(header_body()) is None,
        free_of(header_body(), '\n'),
{
    let h = header_body();
    let t = seq!['i', 'd'];
    lemma_split_free(t, ',');
    let rest = seq!['n', 'a', 'm', 'e', ',', 'e', 'm', 'a', 'i', 'l'];
    assert(h =~= t.push(',') + rest);
    lemma_split_concat(t, rest, ',');
    lemma_split_len(rest, ',');
    assert(split_on(h, ',')[0] == t);
    assert(!is_digit(t[0]));
    assert(!all_digits(t));
    assert(int_value(t) is None);
}

/// The lines of a saved file: the header, one line per record, and the
/// empty remainder after the last newline.
proof fn lemma_file_lines(s: Seq<RecordView>)
    requires
        forall|i: int| 0 <= i < s.len() ==> storable(#[trigger] s[i]),
    ensures
        split_on(file_text(s), '\n') == seq![header_body()] + s.map_values(|x: RecordView|
            line_body(x)) + seq![Seq::<char>::empty()],
        file_text(s).len() > 0,
        file_text(s).last() == '\n',
    decreases s.len(),
{
    lemma_header_no_record();
    if s.len() == 0 {
        assert(lines_text(s) =~= Seq::<char>::empty());
        assert(file_text(s) =~= header_body().push('\n'));
        assert(file_text(s).drop_last() =~= header_body());
        lemma_split_free(header_body(), '\n');
        assert(split_on(file_text(s), '\n') =~= seq![header_body()] + s.map_values(
            |x: RecordView| line_body(x),
        ) + seq![Seq::<char>::empty()]);
    } else {
        let sp = s.drop_last();
        let x = s.last();
        lemma_file_lines(sp);
        lemma_line_reads_back(x);
        let fp = file_text(sp);
        let w = fp.drop_last();
        assert(w.push('\n') =~= fp);
        assert(file_text(s) =~= (w.push('\n') + line_body(x)).push('\n'));
        assert((w.push('\n') + line_body(x)).push('\n').drop_last() =~= w.push('\n') + line_body(
            x,
        ));
        lemma_split_concat(w, line_body(x), '\n');
        lemma_split_free(line_body(x), '\n');
        assert(w.push('\n').drop_last() =~= w);
        assert(split_on(fp, '\n') == split_on(w, '\n').push(Seq::<char>::empty()));
        assert(split_on(w, '\n') =~= split_on(fp, '\n').drop_last());
        assert(split_on(file_text(s), '\n') =~= seq![header_body()] + s.map_values(
            |x: RecordView| line_body(x),
        ) + seq![Seq::<char>::empty()]);
    }
}

/// Two id-ascending sequences that hold the same records are equal.
pub proof fn lemma_ascending_same(t: Seq<RecordView>, s: Seq<RecordView>)
    requires
        ids_ascending(t),
        ids_ascending(s),
        forall|x: RecordView| t.contains(x) <==> s.contains(x),
    ensures
        t == s,
    decreases t.len() + s.len(),
{
    if t.len() == 0 || s.len() == 0 {
        if t.len() > 0 {
            assert(t.contains(t[0]));
        }
        if s.len() > 0 {
            assert(s.contains(s[0]));
        }
        assert(t =~= s);
    } else {
        let a = t.last();
        let b = s.last();
        assert(t.contains(a));
        assert(s.contains(b));
        let ia = choose|i: int| 0 <= i < s.len() && s[i] == a;
        let ib = choose|i: int| 0 <= i < t.len() && t[i] == b;
        assert(a.id <= b.id) by {
            if ia < s.len() - 1 {
                assert(s[ia].id < s[s.len() - 1].id);
            }
        }
        assert(b.id <= a.id) by {
            if ib < t.len() - 1 {
                assert(t[ib].id < t[t.len() - 1].id);
            }
        }
        assert(ia == s.len() - 1) by {
            if ia < s.len() - 1 {
                assert(s[ia].id < s[s.len() - 1].id);
            }
        }
        let t2 = t.drop_last();
        let s2 = s.drop_last();
        assert forall|x: RecordView| t2.contains(x) <==> s2.contains(x) by {
            if t2.contains(x) {
                let k = choose|k: int| 0 <= k < t2.len() && t2[k] == x;
                assert(t.contains(x));
                assert(x.id < a.id);
                let j = choose|j: int| 0 <= j < s.len() && s[j] == x;
                assert(j != s.len() - 1);
                assert(s2[j] == x);
            }
            if s2.contains(x) {
                let k = choose|k: int| 0 <= k < s2.len() && s2[k] == x;
                assert(s.contains(x));
                assert(x.id < b.id);
                let j = choose|j: int| 0 <= j < t.len() && t[j] == x;
                assert(j != t.len() - 1);
                assert(t2[j] == x);
            }
        }
        lemma_ascending_same(t2, s2);
        assert(t =~= t2.push(a));
        assert(s =~= s2.push(b));
    }
}

/// Loading a saved file gives back the records that were saved: a record
/// survives the load exactly when the store held it, and any id-ascending
/// sequence of the loaded records is the saved sequence itself.
pub proof fn lemma_round_trip(s: Seq<RecordView>)
    requires
        ids_ascending(s),
        forall|i: int| 0 <= i < s.len() ==> storable(#[trigger] s[i]),
    ensures
        forall|x: RecordView| loaded(split_on(file_text(s), '\n'), x) <==> s.contains(x),
        forall|t: Seq<RecordView>|
            ids_ascending(t) && (forall|x: RecordView|
                t.contains(x) <==> loaded(split_on(file_text(s), '\n'), x)) ==> t == s,
{
    lemma_file_lines(s);
    lemma_header_no_record();
    let ls = split_on(file_text(s), '\n');
    let n = s.len() as int;
    assert(ls.len() == n + 2);
    assert(ls[0] == header_body());
    assert(ls[n + 1] == Seq::<char>::empty());
    assert forall|k: int| 0 <= k < n implies #[trigger] record_of_line(ls[k + 1]) == Some(s[k]) by {
        assert(ls[k + 1] == line_body(s[k]));
        lemma_line_reads_back(s[k]);
    }
    assert forall|x: RecordView| loaded(ls, x) <==> s.contains(x) by {
        if loaded(ls, x) {
            let i = choose|i: int| survives(ls, i, x);
            assert(i != 0);
            assert(i != n + 1);
            assert(record_of_line(ls[(i - 1) + 1]) == Some(s[i - 1]));
            assert(s[i - 1] == x);
        }
        if s.contains(x) {
            let k = choose|k: int| 0 <= k < n && s[k] == x;
            assert(record_of_line(ls[k + 1]) == Some(x));
            assert forall|j: int| k + 1 < j < ls.len() implies !(#[trigger] record_of_line(
                ls[j],
            ) matches Some(y) && y.id == x.id) by {
                if j <= n {
                    assert(record_of_line(ls[(j - 1) + 1]) == Some(s[j - 1]));
                    assert(s[k].id < s[j - 1].id);
                }
            }
            assert(survives(ls, k + 1, x));
        }
    }
    assert forall|t: Seq<RecordView>|
        ids_ascending(t) && (forall|x: RecordView| t.contains(x) <==> loaded(ls, x)) implies t
        == s by {
        lemma_ascending_same(t, s);
    }
}

} // verus!
