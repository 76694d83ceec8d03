//! The saved-text format: one header line, then one comma-separated line per
//! record. Loading parses line by line, skipping malformed lines and
//! reporting each; saving renders the store ascending by id.

use vstd::prelude::*;
use crate::numeral::{
    dec_str,
    lemma_dec_str,
    parse_i64,
    push_i64,
    signed_val,
    valid_i64_text,
};
use crate::store::{view_map, Record, Records, RecordView};
use crate::text::{
    lemma_split_len_pos,
    lemma_split_no_sep,
    lemma_split_prefix,
    split_seq,
    split_str,
};

verus! {

/// Why one line of saved text does not denote a record.
#[derive(Debug)]
pub enum ParseError {
    /// The id field is not decimal text denoting a value in `i64`'s range.
    InvalidId,
    /// The line has no fields at all.
    EmptyRecord,
    /// The named field is absent or empty.
    MissingField(String),
}

impl ParseError {
    /// A short description of the error.
    pub fn message(&self) -> (r: String)
        ensures
            self is InvalidId ==> r@ == "invalid id"@,
            self is EmptyRecord ==> r@ == "empty record"@,
            self matches ParseError::MissingField(f) ==> r@ == "missing fields "@ + f@,
    {
        match self {
            ParseError::InvalidId => String::from_str("invalid id"),
            ParseError::EmptyRecord => String::from_str("empty record"),
            ParseError::MissingField(f) => {
                let mut s = String::from_str("missing fields ");
                s.append(f.as_str());
                s
            },
        }
    }
}

/// The record denoted by one line of saved text, if any: the first field
/// must be decimal text in `i64` range, the second must be present and
/// non-empty, and a present, non-empty third field is the email.
pub open spec fn parse_line_spec(line: Seq<char>) -> Option<RecordView> {
    let fields = split_seq(line, ',');
    if fields.len() == 0 {
        Option::None
    } else if !valid_i64_text(fields[0]) {
        Option::None
    } else if fields.len() < 2 || fields[1].len() == 0 {
        Option::None
    } else {
        Option::Some(
            RecordView {
                id: signed_val(fields[0]) as i64,
                name: fields[1],
                email: if fields.len() >= 3 && fields[2].len() > 0 {
                    Option::Some(fields[2])
                } else {
                    Option::None
                },
            },
        )
    }
}

/// Parses one line of saved text as a record, or says which field is at
/// fault, exactly as `parse_line_spec` describes.
pub fn parse_record(record: &str) -> (r: Result<Record, ParseError>)
    ensures
        r matches Ok(rec) ==> parse_line_spec(record@) == Option::Some(rec@),
        parse_line_spec(record@) is Some ==> r is Ok,
        ({
            let fields = split_seq(record@, ',');
            &&& (r matches Err(ParseError::InvalidId) <==> fields.len() >= 1 && !valid_i64_text(
                fields[0],
            ))
            &&& (r matches Err(ParseError::EmptyRecord) <==> fields.len() == 0)
            &&& ((r matches Err(ParseError::MissingField(fld)) && fld@ == "name"@) <==> (
            fields.len() >= 1 && valid_i64_text(fields[0]) && (fields.len() < 2 || fields[1].len()
                == 0)))
        }),
{
    let fields = split_str(record, ',');
    let ghost fseq = split_seq(record@, ',');
    proof {
        lemma_split_len_pos(record@, ',');
        assert(fields@.len() == fseq.len());
    }
    if fields.len() == 0 {
        return Err(ParseError::EmptyRecord);
    }
    proof {
        assert(fields@.map_values(|t: String| t@)[0] == fields@[0]@);
    }
    let id = match parse_i64(fields[0].as_str()) {
        Some(v) => v,
        None => {
            return Err(ParseError::InvalidId);
        },
    };
    if fields.len() < 2 {
        return Err(ParseError::MissingField(String::from_str("name")));
    }
    proof {
        assert(fields@.map_values(|t: String| t@)[1] == fields@[1]@);
    }
    if fields[1].as_str().is_empty() {
        return Err(ParseError::MissingField(String::from_str("name")));
    }
    let name = fields[1].clone();
    let email = if fields.len() >= 3 {
        proof {
            assert(fields@.map_values(|t: String| t@)[2] == fields@[2]@);
        }
        if !fields[2].as_str().is_empty() {
            Some(fields[2].clone())
        } else {
            None
        }
    } else {
        None
    };
    Ok(Record { id: id, name: name, email: email })
}

/// One skipped line of loaded text: its 1-based number, why it was skipped,
/// and its content.
pub struct LineIssue {
    pub line_no: usize,
    pub error: ParseError,
    pub content: String,
}

/// The mapping denoted by the lines of a saved text: each non-empty line
/// that parses contributes its record, later lines overriding earlier ones;
/// other lines contribute nothing.
pub open spec fn load_map(lines: Seq<Seq<char>>) -> Map<i64, RecordView>
    decreases lines.len(),
{
    if lines.len() == 0 {
        Map::empty()
    } else {
        let m = load_map(lines.drop_last());
        let l = lines.last();
        if l.len() == 0 {
            m
        } else {
            match parse_line_spec(l) {
                Option::Some(rv) => m.insert(rv.id, rv),
                Option::None => m,
            }
        }
    }
}

/// The lines a load skips: the 1-based number and content of each non-empty
/// line that does not parse, in order.
pub open spec fn issues_spec(lines: Seq<Seq<char>>) -> Seq<(int, Seq<char>)>
    decreases lines.len(),
{
    if lines.len() == 0 {
        Seq::empty()
    } else {
        let pre = issues_spec(lines.drop_last());
        let l = lines.last();
        if l.len() > 0 && parse_line_spec(l) is None {
            pre.push((lines.len() as int, l))
        } else {
            pre
        }
    }
}

/// Does `e` correctly say why line `l` was skipped?
pub open spec fn error_describes(l: Seq<char>, e: ParseError) -> bool {
    let fields = split_seq(l, ',');
    match e {
        ParseError::InvalidId => fields.len() >= 1 && !valid_i64_text(fields[0]),
        ParseError::EmptyRecord => fields.len() == 0,
        ParseError::MissingField(fld) => fields.len() >= 1 && valid_i64_text(fields[0]) && (
        fields.len() < 2 || fields[1].len() == 0) && fld@ == "name"@,
    }
}

/// Loads saved text: splits it into lines, parses each non-empty line, and
/// builds the store, collecting one issue per skipped line. A bad line never
/// fails the whole load.
pub fn parse_records(records: &str) -> (r: (Records, Vec<LineIssue>))
    ensures
        r.0.wf(),
        r.0@ == load_map(split_seq(records@, '\n')),
        r.1@.map_values(|iss: LineIssue| (iss.line_no as int, iss.content@)) == issues_spec(
            split_seq(records@, '\n'),
        ),
        forall|k: int|
            0 <= k < r.1@.len() ==> error_describes(
                (#[trigger] r.1@[k]).content@,
                r.1@[k].error,
            ),
{
    let lines = split_str(records, '\n');
    let ghost lseq = split_seq(records@, '\n');
    let mut recs = Records::new();
    let mut issues: Vec<LineIssue> = Vec::new();
    let mut i: usize = 0;
    proof {
        assert(lseq.take(0) =~~= Seq::<Seq<char>>::empty());
        assert(issues@.map_values(|iss: LineIssue| (iss.line_no as int, iss.content@))
            =~= issues_spec(lseq.take(0)));
    }
    while i < lines.len()
        invariant
            0 <= i <= lines.len(),
            lines@.map_values(|t: String| t@) == lseq,
            recs.wf(),
            recs@ == load_map(lseq.take(i as int)),
            issues@.map_values(|iss: LineIssue| (iss.line_no as int, iss.content@)) == issues_spec(
                lseq.take(i as int),
            ),
            forall|k: int|
                0 <= k < issues@.len() ==> error_describes(
                    (#[trigger] issues@[k]).content@,
                    issues@[k].error,
                ),
        decreases lines.len() - i,
    {
        proof {
            assert(lseq.take(i + 1).drop_last() =~~= lseq.take(i as int));
            assert(lseq.take(i + 1).last() == lseq[i as int]);
            assert(lines@.map_values(|t: String| t@)[i as int] == lines@[i as int]@);
        }
        let line = &lines[i];
        if !line.as_str().is_empty() {
            match parse_record(line.as_str()) {
                Ok(rec) => {
                    recs.add(rec);
                    proof {
                        assert(load_map(lseq.take(i + 1)) == load_map(lseq.take(i as int)).insert(
                            rec@.id,
                            rec@,
                        ));
                        assert(issues_spec(lseq.take(i + 1)) == issues_spec(lseq.take(i as int)));
                    }
                },
                Err(e) => {
                    let ghost ibefore = issues@.map_values(
                        |iss: LineIssue| (iss.line_no as int, iss.content@),
                    );
                    let iss = LineIssue { line_no: i + 1, error: e, content: line.clone() };
                    proof {
                        assert(error_describes(lseq[i as int], iss.error));
                    }
                    issues.push(iss);
                    proof {
                        assert(issues@.map_values(|iss2: LineIssue| (iss2.line_no as int, iss2.content@))
                            =~~= ibefore.push((i + 1 as int, lseq[i as int])));
                        assert(issues_spec(lseq.take(i + 1)) == issues_spec(lseq.take(i as int)).push(
                            ((i + 1) as int, lseq[i as int]),
                        ));
                    }
                },
            }
        } else {
            proof {
                assert(load_map(lseq.take(i + 1)) == load_map(lseq.take(i as int)));
                assert(issues_spec(lseq.take(i + 1)) == issues_spec(lseq.take(i as int)));
            }
        }
        i += 1;
    }
    proof {
        assert(lseq.take(lines@.len() as int) =~~= lseq);
    }
    (recs, issues)
}

/// The saved text of an email field: the email itself, or nothing.
pub open spec fn render_email(email: Option<Seq<char>>) -> Seq<char> {
    match email {
        Option::Some(e) => e,
        Option::None => Seq::empty(),
    }
}

/// The saved text of one record: id, name and email, comma-separated.
pub open spec fn render_line(rv: RecordView) -> Seq<char> {
    dec_str(rv.id as int) + seq![','] + rv.name + seq![','] + render_email(rv.email)
}

/// The header line of saved text.
pub open spec fn header_text() -> Seq<char> {
    seq!['i', 'd', ',', 'n', 'a', 'm', 'e', ',', 'e', 'm', 'a', 'i', 'l']
}

/// The record lines of saved text, each ended by a line break.
pub open spec fn render_body(rs: Seq<RecordView>) -> Seq<char>
    decreases rs.len(),
{
    if rs.len() == 0 {
        Seq::empty()
    } else {
        render_line(rs[0]) + seq!['\n'] + render_body(rs.drop_first())
    }
}

/// A whole saved text: the header line, then one line per record.
pub open spec fn render_csv(rs: Seq<RecordView>) -> Seq<char> {
    header_text() + seq!['\n'] + render_body(rs)
}

/// Appending one record appends exactly its line.
proof fn lemma_render_body_push(rs: Seq<RecordView>, rv: RecordView)
    ensures
        render_body(rs.push(rv)) == render_body(rs) + render_line(rv) + seq!['\n'],
    decreases rs.len(),
{
    let t = rs.push(rv);
    if rs.len() == 0 {
        assert(t.drop_first() =~~= Seq::<RecordView>::empty());
        assert(t[0] == rv);
        assert(render_body(Seq::<RecordView>::empty()) == Seq::<char>::empty());
        assert(render_body(t) == render_line(rv) + seq!['\n'] + render_body(t.drop_first()));
        assert(render_body(t) =~= render_body(rs) + render_line(rv) + seq!['\n']);
    } else {
        assert(t[0] == rs[0]);
        assert(t.drop_first() =~~= rs.drop_first().push(rv));
        lemma_render_body_push(rs.drop_first(), rv);
        assert(render_body(t) == render_line(rs[0]) + seq!['\n'] + render_body(t.drop_first()));
        assert(render_body(t.drop_first()) == render_body(rs.drop_first()) + render_line(rv)
            + seq!['\n']);
        assert(render_body(rs) == render_line(rs[0]) + seq!['\n'] + render_body(rs.drop_first()));
        assert(render_body(t) =~= render_body(rs) + render_line(rv) + seq!['\n']);
    }
}

/// Renders the whole store as saved text: the header, then one line per
/// record, ascending by id, with an absent email written as nothing.
pub fn render_records(records: Records) -> (r: String)
    requires
        records.wf(),
    ensures
        r@ == render_csv(records.ordered()),
{
    let ghost ord = records.ordered();
    let list = records.into_vec();
    let mut out = String::new();
    out.append("id,name,email\n");
    proof {
        reveal_strlit("id,name,email\n");
        assert("id,name,email\n"@ =~= header_text() + seq!['\n']);
        assert(ord.take(0) =~~= Seq::<RecordView>::empty());
        assert(out@ =~= header_text() + seq!['\n'] + render_body(ord.take(0)));
    }
    let mut i: usize = 0;
    while i < list.len()
        invariant
            0 <= i <= list.len(),
            list@.map_values(|rec: Record| rec@) == ord,
            out@ == header_text() + seq!['\n'] + render_body(ord.take(i as int)),
        decreases list.len() - i,
    {
        let rec = &list[i];
        proof {
            assert(list@.map_values(|r2: Record| r2@)[i as int] == list@[i as int]@);
            assert(ord.take(i + 1) =~~= ord.take(i as int).push(rec@));
            lemma_render_body_push(ord.take(i as int), rec@);
        }
        push_i64(&mut out, rec.id);
        out.append(",");
        out.append(rec.name.as_str());
        out.append(",");
        match &rec.email {
            Some(e) => {
                out.append(e.as_str());
            },
            None => {},
        }
        out.append("\n");
        proof {
            reveal_strlit(",");
            reveal_strlit("\n");
            assert(","@ =~= seq![',']);
            assert("\n"@ =~= seq!['\n']);
            assert(out@ =~= header_text() + seq!['\n'] + render_body(ord.take(i + 1)));
        }
        i += 1;
    }
    proof {
        assert(ord.take(list@.len() as int) =~~= ord);
    }
    out
}

/// Fields that the saved-text format can carry faithfully: a non-empty name,
/// no separator or line-break characters inside any field, and an absent
/// email rather than an empty one. A field holding a comma corrupts the
/// format on a round trip — the format does not escape its separators.
pub open spec fn round_trippable(rv: RecordView) -> bool {
    &&& rv.name.len() > 0
    &&& forall|i: int|
        0 <= i < rv.name.len() ==> #[trigger] rv.name[i] != ',' && rv.name[i] != '\n'
    &&& match rv.email {
        Option::Some(e) => e.len() > 0 && forall|i: int|
            0 <= i < e.len() ==> #[trigger] e[i] != ',' && e[i] != '\n',
        Option::None => true,
    }
}

/// A rendered line holds no line break.
proof fn lemma_render_line_no_newline(rv: RecordView)
    requires
        round_trippable(rv),
    ensures
        forall|i: int| 0 <= i < render_line(rv).len() ==> #[trigger] render_line(rv)[i] != '\n',
        render_line(rv).len() > 0,
{
    lemma_dec_str(rv.id as int);
    let l = render_line(rv);
    let d = dec_str(rv.id as int);
    assert forall|i: int| 0 <= i < l.len() implies #[trigger] l[i] != '\n' by {
        if i < d.len() {
            assert(l[i] == d[i]);
        } else if i == d.len() {
            assert(l[i] == ',');
        } else if i < d.len() + 1 + rv.name.len() {
            assert(l[i] == rv.name[i - d.len() - 1]);
        } else if i == d.len() + 1 + rv.name.len() {
            assert(l[i] == ',');
        } else {
            assert(l[i] == render_email(rv.email)[i - d.len() - 2 - rv.name.len()]);
        }
    }
}

/// Parsing a rendered line gives back exactly the record it was made from.
proof fn lemma_parse_render_line(rv: RecordView)
    requires
        round_trippable(rv),
    ensures
        parse_line_spec(render_line(rv)) == Option::Some(rv),
{
    lemma_dec_str(rv.id as int);
    let l = render_line(rv);
    let d = dec_str(rv.id as int);
    let e = render_email(rv.email);
    let tail = rv.name + seq![','] + e;
    assert(l =~= d + seq![','] + tail);
    lemma_split_prefix(d, tail, ',');
    lemma_split_prefix(rv.name, e, ',');
    assert forall|i: int| 0 <= i < e.len() implies #[trigger] e[i] != ',' by {}
    lemma_split_no_sep(e, ',');
    let fields = split_seq(l, ',');
    assert(fields =~~= seq![d, rv.name, e]);
    assert(valid_i64_text(fields[0]));
    assert(signed_val(fields[0]) == rv.id as int);
    assert(fields[1] == rv.name);
    assert(rv.name.len() > 0);
    match rv.email {
        Option::Some(em) => {
            assert(fields[2] == em);
            assert(em.len() > 0);
            assert(parse_line_spec(l) == Option::Some(rv));
        },
        Option::None => {
            assert(fields[2].len() == 0);
            assert(parse_line_spec(l) == Option::Some(rv));
        },
    }
}

/// The header line does not parse as a record, so a load skips it.
proof fn lemma_header_skipped()
    ensures
        parse_line_spec(header_text()) is None,
        forall|i: int| 0 <= i < header_text().len() ==> #[trigger] header_text()[i] != '\n',
        header_text().len() > 0,
{
    let h = header_text();
    let pre = seq!['i', 'd'];
    let rest = seq!['n', 'a', 'm', 'e', ',', 'e', 'm', 'a', 'i', 'l'];
    assert(h =~= pre + seq![','] + rest);
    assert(pre[0] == 'i' && pre[1] == 'd');
    assert forall|i: int| 0 <= i < pre.len() implies #[trigger] pre[i] != ',' by {
        assert(pre[0] == 'i');
        assert(pre[1] == 'd');
    }
    lemma_split_prefix(pre, rest, ',');
    let fields = split_seq(h, ',');
    assert(fields[0] == pre);
    assert(crate::numeral::digits_of(pre) == pre);
    assert(!crate::numeral::is_digit('i'));
    assert(!valid_i64_text(pre));
    assert forall|i: int| 0 <= i < h.len() implies #[trigger] h[i] != '\n' by {}
}

/// The record lines of a rendered text, in order.
pub open spec fn rendered_lines(rs: Seq<RecordView>) -> Seq<Seq<char>> {
    rs.map_values(|rv: RecordView| render_line(rv))
}

/// Splitting a rendered body on line breaks gives the record lines and one
/// trailing empty field.
proof fn lemma_split_body(rs: Seq<RecordView>)
    requires
        forall|k: int| 0 <= k < rs.len() ==> round_trippable(#[trigger] rs[k]),
    ensures
        split_seq(render_body(rs), '\n') == rendered_lines(rs).push(Seq::<char>::empty()),
    decreases rs.len(),
{
    if rs.len() == 0 {
        assert(split_seq(render_body(rs), '\n') =~~= rendered_lines(rs).push(
            Seq::<char>::empty(),
        ));
    } else {
        lemma_render_line_no_newline(rs[0]);
        assert(render_body(rs) =~= render_line(rs[0]) + seq!['\n'] + render_body(rs.drop_first()));
        lemma_split_prefix(render_line(rs[0]), render_body(rs.drop_first()), '\n');
        assert forall|k: int| 0 <= k < rs.drop_first().len() implies round_trippable(
            #[trigger] rs.drop_first()[k],
        ) by {
            assert(rs.drop_first()[k] == rs[k + 1]);
        }
        lemma_split_body(rs.drop_first());
        assert(split_seq(render_body(rs), '\n') =~~= rendered_lines(rs).push(
            Seq::<char>::empty(),
        ));
    }
}

/// Loading the header line plus the rendered record lines rebuilds exactly
/// the mapping the records denote.
proof fn lemma_load_lines(rs: Seq<RecordView>)
    requires
        forall|k: int| 0 <= k < rs.len() ==> round_trippable(#[trigger] rs[k]),
    ensures
        load_map(seq![header_text()] + rendered_lines(rs)) == view_map(rs),
    decreases rs.len(),
{
    let lines = seq![header_text()] + rendered_lines(rs);
    if rs.len() == 0 {
        lemma_header_skipped();
        assert(lines =~~= seq![header_text()]);
        assert(lines.drop_last() =~~= Seq::<Seq<char>>::empty());
        assert(lines.last() == header_text());
        assert(lines.last().len() > 0);
        assert(load_map(Seq::<Seq<char>>::empty()) == Map::<i64, RecordView>::empty());
        assert(load_map(lines.drop_last()) == Map::<i64, RecordView>::empty());
        assert(load_map(lines) == load_map(lines.drop_last()));
        assert(view_map(rs) =~= Map::<i64, RecordView>::empty());
    } else {
        let last = rs.last();
        assert(lines.last() == render_line(last));
        assert(lines.drop_last() =~~= seq![header_text()] + rendered_lines(rs.drop_last()));
        assert forall|k: int| 0 <= k < rs.drop_last().len() implies round_trippable(
            #[trigger] rs.drop_last()[k],
        ) by {
            assert(rs.drop_last()[k] == rs[k]);
        }
        lemma_load_lines(rs.drop_last());
        lemma_render_line_no_newline(last);
        lemma_parse_render_line(last);
        assert(load_map(lines) == view_map(rs.drop_last()).insert(last.id, last));
    }
}

/// The round-trip law: saving records whose fields the format can carry —
/// non-empty names, no separator or line-break characters inside a field, no
/// empty email — and loading the text back rebuilds exactly the mapping the
/// records denote. With a comma inside a field the format corrupts, which
/// the premise excludes.
pub proof fn lemma_save_load_round_trip(rs: Seq<RecordView>)
    requires
        forall|k: int| 0 <= k < rs.len() ==> round_trippable(#[trigger] rs[k]),
    ensures
        load_map(split_seq(render_csv(rs), '\n')) == view_map(rs),
{
    lemma_header_skipped();
    assert(render_csv(rs) =~= header_text() + seq!['\n'] + render_body(rs));
    lemma_split_prefix(header_text(), render_body(rs), '\n');
    lemma_split_body(rs);
    let lines = split_seq(render_csv(rs), '\n');
    assert(lines =~~= seq![header_text()] + rendered_lines(rs).push(Seq::<char>::empty()));
    let full = seq![header_text()] + rendered_lines(rs);
    assert(lines =~~= full.push(Seq::<char>::empty()));
    assert(lines.drop_last() =~~= full);
    assert(lines.last().len() == 0);
    assert(load_map(lines) == load_map(full));
    lemma_load_lines(rs);
}

/// The round-trip law on a store: rendering a well-formed store whose
/// records the format can carry, and loading the text back, rebuilds the
/// store's own mapping.
pub proof fn lemma_store_round_trip(s: &Records)
    requires
        s.wf(),
        forall|k: int| 0 <= k < s.ordered().len() ==> round_trippable(#[trigger] s.ordered()[k]),
    ensures
        load_map(split_seq(render_csv(s.ordered()), '\n')) == s@,
{
    s.lemma_ordered();
    lemma_save_load_round_trip(s.ordered());
}

} // verus!
