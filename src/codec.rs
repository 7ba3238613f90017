use vstd::prelude::*;

use crate::decimal::{
    all_digits, digits_value, int_text, is_digit, lemma_nat_text, lemma_parse_int_text,
    lemma_parse_nat_text, nat_text, nat_to_text, parse_int_text, parse_nat_text, push_char,
    push_int_text, push_nat_text, chars_of, parse_nat_range, parse_i64_range, text_of_range,
    char_to_digit,
};
use crate::task_record::{RecordModel, TaskRecord, TaskStatus, text_opt};
use crate::timestamp::Timestamp;

verus! {

/// Number of framed fields in an encoded record.
pub const RECORD_FIELDS: usize = 11;

/// One field on the wire: its length in characters, a colon, then the field
/// itself, so that no field needs escaping.
pub open spec fn frame(t: Seq<char>) -> Seq<char> {
    nat_text(t.len()) + seq![':'] + t
}

pub open spec fn frames(ts: Seq<Seq<char>>) -> Seq<char>
    decreases ts.len(),
{
    if ts.len() == 0 {
        Seq::empty()
    } else {
        frame(ts[0]) + frames(ts.drop_first())
    }
}

/// Length of the run of digits at the front of `s`.
pub open spec fn digit_run(s: Seq<char>) -> nat
    decreases s.len(),
{
    if s.len() > 0 && is_digit(s[0]) {
        1 + digit_run(s.drop_first())
    } else {
        0
    }
}

/// Reads one frame off the front of `s`: the field and what follows it.
pub open spec fn parse_frame(s: Seq<char>) -> Option<(Seq<char>, Seq<char>)> {
    let k = digit_run(s) as int;
    if 0 < k && k < s.len() && s[k] == ':' {
        let n = digits_value(s.take(k)) as int;
        if k + 1 + n <= s.len() {
            Some((s.subrange(k + 1, k + 1 + n), s.skip(k + 1 + n)))
        } else {
            None
        }
    } else {
        None
    }
}

/// Reads exactly `n` frames that together make up all of `s`.
pub open spec fn parse_frames(s: Seq<char>, n: nat) -> Option<Seq<Seq<char>>>
    decreases n,
{
    if n == 0 {
        if s.len() == 0 {
            Some(Seq::empty())
        } else {
            None
        }
    } else {
        match parse_frame(s) {
            Some((t, rest)) => match parse_frames(rest, (n - 1) as nat) {
                Some(ts) => Some(seq![t] + ts),
                None => None,
            },
            None => None,
        }
    }
}

pub open spec fn opt_nat_field(o: Option<u32>) -> Seq<char> {
    match o {
        Some(n) => nat_text(n as nat),
        None => Seq::empty(),
    }
}

pub open spec fn opt_int_field(o: Option<i32>) -> Seq<char> {
    match o {
        Some(i) => int_text(i as int),
        None => Seq::empty(),
    }
}

/// Absent text is the empty field; present text is marked by a leading `+`,
/// so that present empty text stays distinct from absence.
pub open spec fn opt_text_field(o: Option<Seq<char>>) -> Seq<char> {
    match o {
        Some(t) => seq!['+'] + t,
        None => Seq::empty(),
    }
}

pub open spec fn status_field(s: TaskStatus) -> Seq<char> {
    match s {
        TaskStatus::Running => seq!['R'],
        TaskStatus::CompletedButUnread => seq!['C'],
    }
}

/// The fields of a record, in wire order.
pub open spec fn record_fields(r: RecordModel) -> Seq<Seq<char>> {
    seq![
        int_text(r.started_at.secs as int),
        nat_text(r.started_at.nanos as nat),
        r.log_id,
        r.log_path,
        opt_nat_field(r.manager_pid),
        opt_text_field(r.cleanup_reason),
        status_field(r.status),
        opt_text_field(r.result),
        match r.completed_at {
            Some(t) => int_text(t.secs as int),
            None => Seq::empty(),
        },
        match r.completed_at {
            Some(t) => nat_text(t.nanos as nat),
            None => Seq::empty(),
        },
        opt_int_field(r.exit_code),
    ]
}

/// The text that stands for a record in the registry.
pub open spec fn encode_spec(r: RecordModel) -> Seq<char> {
    frames(record_fields(r))
}

pub open spec fn field_i64(t: Seq<char>) -> Option<i64> {
    match parse_int_text(t) {
        Some(i) => if i64::MIN <= i <= i64::MAX {
            Some(i as i64)
        } else {
            None
        },
        None => None,
    }
}

pub open spec fn field_u32(t: Seq<char>) -> Option<u32> {
    match parse_nat_text(t) {
        Some(n) => if n <= u32::MAX {
            Some(n as u32)
        } else {
            None
        },
        None => None,
    }
}

pub open spec fn field_opt_u32(t: Seq<char>) -> Option<Option<u32>> {
    if t.len() == 0 {
        Some(None)
    } else {
        match field_u32(t) {
            Some(n) => Some(Some(n)),
            None => None,
        }
    }
}

pub open spec fn field_opt_i32(t: Seq<char>) -> Option<Option<i32>> {
    if t.len() == 0 {
        Some(None)
    } else {
        match field_i64(t) {
            Some(i) => if i32::MIN <= i <= i32::MAX {
                Some(Some(i as i32))
            } else {
                None
            },
            None => None,
        }
    }
}

pub open spec fn field_opt_text(t: Seq<char>) -> Option<Option<Seq<char>>> {
    if t.len() == 0 {
        Some(None)
    } else if t[0] == '+' {
        Some(Some(t.drop_first()))
    } else {
        None
    }
}

pub open spec fn field_status(t: Seq<char>) -> Option<TaskStatus> {
    if t == seq!['R'] {
        Some(TaskStatus::Running)
    } else if t == seq!['C'] {
        Some(TaskStatus::CompletedButUnread)
    } else {
        None
    }
}

/// Both completion fields empty means no completion time; both present
/// give one; one without the other is malformed.
pub open spec fn field_completed(secs: Seq<char>, nanos: Seq<char>) -> Option<Option<Timestamp>> {
    if secs.len() == 0 && nanos.len() == 0 {
        Some(None)
    } else {
        match (field_i64(secs), field_u32(nanos)) {
            (Some(s), Some(n)) => Some(Some(Timestamp { secs: s, nanos: n })),
            _ => None,
        }
    }
}

pub open spec fn record_from_fields(ts: Seq<Seq<char>>) -> Option<RecordModel> {
    match (
        field_i64(ts[0]),
        field_u32(ts[1]),
        field_opt_u32(ts[4]),
        field_opt_text(ts[5]),
        field_status(ts[6]),
        field_opt_text(ts[7]),
        field_completed(ts[8], ts[9]),
        field_opt_i32(ts[10]),
    ) {
        (
            Some(secs),
            Some(nanos),
            Some(manager_pid),
            Some(cleanup_reason),
            Some(status),
            Some(result),
            Some(completed_at),
            Some(exit_code),
        ) => Some(
            RecordModel {
                started_at: Timestamp { secs, nanos },
                log_id: ts[2],
                log_path: ts[3],
                manager_pid,
                cleanup_reason,
                status,
                result,
                completed_at,
                exit_code,
            },
        ),
        _ => None,
    }
}

/// The record that a text stands for, if it is a well-formed encoding.
pub open spec fn decode_spec(s: Seq<char>) -> Option<RecordModel> {
    match parse_frames(s, RECORD_FIELDS as nat) {
        Some(ts) => record_from_fields(ts),
        None => None,
    }
}

proof fn lemma_digit_run(d: Seq<char>, x: Seq<char>)
    requires
        all_digits(d),
        x.len() > 0,
        !is_digit(x[0]),
    ensures
        digit_run(d + x) == d.len(),
    decreases d.len(),
{
    if d.len() == 0 {
        assert(d + x =~= x);
    } else {
        assert((d + x).drop_first() =~= d.drop_first() + x);
        assert(is_digit(d[0]));
        lemma_digit_run(d.drop_first(), x);
    }
}

proof fn lemma_parse_frame(t: Seq<char>, rest: Seq<char>)
    ensures
        parse_frame(frame(t) + rest) == Some((t, rest)),
{
    let d = nat_text(t.len());
    let s = frame(t) + rest;
    lemma_nat_text(t.len());
    assert(s =~= d + (seq![':'] + t + rest));
    lemma_digit_run(d, seq![':'] + t + rest);
    let k = d.len() as int;
    assert(s[k] == ':');
    assert(s.take(k) =~= d);
    assert(s.subrange(k + 1, k + 1 + t.len()) =~= t);
    assert(s.skip(k + 1 + t.len()) =~= rest);
}

proof fn lemma_parse_frames(ts: Seq<Seq<char>>)
    ensures
        parse_frames(frames(ts), ts.len()) == Some(ts),
    decreases ts.len(),
{
    if ts.len() == 0 {
    } else {
        lemma_parse_frame(ts[0], frames(ts.drop_first()));
        lemma_parse_frames(ts.drop_first());
        assert(seq![ts[0]] + ts.drop_first() =~= ts);
    }
}

proof fn lemma_frames_push(ts: Seq<Seq<char>>, t: Seq<char>)
    ensures
        frames(ts.push(t)) == frames(ts) + frame(t),
    decreases ts.len(),
{
    if ts.len() == 0 {
        assert(ts.push(t).drop_first() =~= Seq::<Seq<char>>::empty());
        assert(ts.push(t)[0] == t);
        assert(frames(ts.push(t).drop_first()) == Seq::<char>::empty());
        assert(frames(ts) == Seq::<char>::empty());
        assert(frames(ts.push(t)) =~= frames(ts) + frame(t));
    } else {
        assert(ts.push(t).drop_first() =~= ts.drop_first().push(t));
        lemma_frames_push(ts.drop_first(), t);
        assert(frames(ts.push(t)) =~= frames(ts) + frame(t));
    }
}

proof fn lemma_field_u32(n: u32)
    ensures
        field_u32(nat_text(n as nat)) == Some(n),
{
    lemma_parse_nat_text(n as nat);
}

proof fn lemma_field_i64(i: i64)
    ensures
        field_i64(int_text(i as int)) == Some(i),
{
    lemma_parse_int_text(i as int);
}

/// Decoding the encoding of any record gives that record back, every
/// optional field included: an absent field comes back absent.
pub proof fn lemma_record_round_trip(r: RecordModel)
    ensures
        decode_spec(encode_spec(r)) == Some(r),
{
    let ts = record_fields(r);
    lemma_parse_frames(ts);
    lemma_field_i64(r.started_at.secs);
    lemma_field_u32(r.started_at.nanos);
    match r.manager_pid {
        Some(p) => {
            lemma_field_u32(p);
            lemma_nat_text(p as nat);
        },
        None => {},
    }
    match r.cleanup_reason {
        Some(c) => {
            assert((seq!['+'] + c).drop_first() =~= c);
        },
        None => {},
    }
    match r.result {
        Some(c) => {
            assert((seq!['+'] + c).drop_first() =~= c);
        },
        None => {},
    }
    match r.completed_at {
        Some(t) => {
            lemma_field_i64(t.secs);
            lemma_field_u32(t.nanos);
            lemma_nat_text(t.nanos as nat);
        },
        None => {},
    }
    match r.exit_code {
        Some(e) => {
            lemma_field_i64(e as i64);
            lemma_nat_text(if e < 0 { (-e) as nat } else { e as nat });
        },
        None => {},
    }
    assert(seq!['R'] != seq!['C']) by {
        assert(seq!['R'][0] != seq!['C'][0]);
    }
    let back = record_from_fields(ts);
    assert(back is Some);
    assert(back->0 == r);
}

/// Appends one framed field.
fn push_frame(out: &mut String, field: &str)
    ensures
        final(out)@ == old(out)@ + frame(field@),
{
    let n = field.unicode_len();
    push_nat_text(out, n as u64);
    push_char(out, ':');
    out.append(field);
    assert(final(out)@ =~= old(out)@ + frame(field@));
}

fn opt_text_to_field(o: &Option<String>) -> (r: String)
    ensures
        r@ == opt_text_field(text_opt(*o)),
{
    let mut out = String::new();
    match o {
        Some(t) => {
            push_char(&mut out, '+');
            out.append(t.as_str());
        },
        None => {},
    }
    assert(out@ =~= opt_text_field(text_opt(*o)));
    out
}

/// The registry text of a record.
pub fn encode_record(record: &TaskRecord) -> (r: String)
    ensures
        r@ == encode_spec(record@),
{
    let ghost m = record@;
    let ghost mut ts: Seq<Seq<char>> = Seq::empty();
    let mut out = String::new();
    let mut field = String::new();

    push_int_text(&mut field, record.started_at.secs);
    push_frame(&mut out, field.as_str());
    proof {
        lemma_frames_push(ts, field@);
        ts = ts.push(field@);
    }
    let field = nat_to_text(record.started_at.nanos as u64);
    push_frame(&mut out, field.as_str());
    proof {
        lemma_frames_push(ts, field@);
        ts = ts.push(field@);
    }
    push_frame(&mut out, record.log_id.as_str());
    proof {
        lemma_frames_push(ts, record.log_id@);
        ts = ts.push(record.log_id@);
    }
    push_frame(&mut out, record.log_path.as_str());
    proof {
        lemma_frames_push(ts, record.log_path@);
        ts = ts.push(record.log_path@);
    }
    let field = match record.manager_pid {
        Some(p) => nat_to_text(p as u64),
        None => String::new(),
    };
    push_frame(&mut out, field.as_str());
    proof {
        lemma_frames_push(ts, field@);
        ts = ts.push(field@);
    }
    let field = opt_text_to_field(&record.cleanup_reason);
    push_frame(&mut out, field.as_str());
    proof {
        lemma_frames_push(ts, field@);
        ts = ts.push(field@);
    }
    let mut field = String::new();
    match record.status {
        TaskStatus::Running => push_char(&mut field, 'R'),
        TaskStatus::CompletedButUnread => push_char(&mut field, 'C'),
    }
    push_frame(&mut out, field.as_str());
    proof {
        assert(field@ =~= status_field(m.status));
        lemma_frames_push(ts, field@);
        ts = ts.push(field@);
    }
    let field = opt_text_to_field(&record.result);
    push_frame(&mut out, field.as_str());
    proof {
        lemma_frames_push(ts, field@);
        ts = ts.push(field@);
    }
    let mut secs_field = String::new();
    let mut nanos_field = String::new();
    match record.completed_at {
        Some(t) => {
            push_int_text(&mut secs_field, t.secs);
            push_nat_text(&mut nanos_field, t.nanos as u64);
        },
        None => {},
    }
    push_frame(&mut out, secs_field.as_str());
    proof {
        assert(secs_field@ =~= record_fields(m)[8]);
        lemma_frames_push(ts, secs_field@);
        ts = ts.push(secs_field@);
    }
    push_frame(&mut out, nanos_field.as_str());
    proof {
        assert(nanos_field@ =~= record_fields(m)[9]);
        lemma_frames_push(ts, nanos_field@);
        ts = ts.push(nanos_field@);
    }
    let mut field = String::new();
    match record.exit_code {
        Some(e) => push_int_text(&mut field, e as i64),
        None => {},
    }
    push_frame(&mut out, field.as_str());
    proof {
        assert(field@ =~= opt_int_field(m.exit_code));
        lemma_frames_push(ts, field@);
        ts = ts.push(field@);
        assert(ts =~= record_fields(m));
        assert(frames(Seq::<Seq<char>>::empty()) =~= Seq::<char>::empty());
    }
    assert(out@ =~= encode_spec(m));
    out
}

proof fn lemma_digit_run_step(s: Seq<char>, j: int)
    requires
        0 <= j < s.len(),
        is_digit(s[j]),
    ensures
        digit_run(s.skip(j)) == 1 + digit_run(s.skip(j + 1)),
{
    assert(s.skip(j).drop_first() =~= s.skip(j + 1));
}

/// Locates the frame that starts at `pos`: the bounds of its field.
fn next_frame(s: &Vec<char>, pos: usize) -> (r: Option<(usize, usize)>)
    requires
        pos <= s.len(),
    ensures
        match r {
            Some((a, b)) => pos < a <= b <= s.len() && parse_frame(s@.skip(pos as int)) == Some(
                (s@.subrange(a as int, b as int), s@.skip(b as int)),
            ),
            None => parse_frame(s@.skip(pos as int)) is None,
        },
{
    let ghost t = s@.skip(pos as int);
    let mut j: usize = pos;
    while j < s.len() && char_to_digit(s[j]).is_some()
        invariant
            pos <= j <= s.len(),
            t == s@.skip(pos as int),
            digit_run(t) == (j - pos) + digit_run(s@.skip(j as int)),
            forall|i: int| pos <= i < j ==> #[trigger] is_digit(s@[i]),
        decreases s.len() - j,
    {
        proof {
            lemma_digit_run_step(s@, j as int);
        }
        j = j + 1;
    }
    let k: usize = j - pos;
    assert(digit_run(s@.skip(j as int)) == 0) by {
        if j < s.len() {
            assert(s@.skip(j as int)[0] == s@[j as int]);
        }
    }
    if k == 0 || j >= s.len() || s[j] != ':' {
        assert(k < t.len() ==> t[k as int] == s@[j as int]);
        return None;
    }
    assert(t[k as int] == s@[j as int]);
    assert(t.take(k as int) =~= s@.subrange(pos as int, j as int));
    let ghost digits = s@.subrange(pos as int, j as int);
    assert(all_digits(digits));
    let n = parse_nat_range(s, pos, j);
    match n {
        None => {
            assert(digits_value(digits) > u64::MAX);
            None
        },
        Some(n) => {
            let start: usize = j + 1;
            if n > (s.len() - start) as u64 {
                return None;
            }
            let end: usize = start + n as usize;
            assert(t.subrange(k + 1, k + 1 + n) =~= s@.subrange(start as int, end as int));
            assert(t.skip(k + 1 + n) =~= s@.skip(end as int));
            Some((start, end))
        },
    }
}

fn decode_opt_text(s: &Vec<char>, a: usize, b: usize) -> (r: Option<Option<String>>)
    requires
        a <= b <= s.len(),
    ensures
        match r {
            Some(o) => field_opt_text(s@.subrange(a as int, b as int)) == Some(text_opt(o)),
            None => field_opt_text(s@.subrange(a as int, b as int)) is None,
        },
{
    let ghost t = s@.subrange(a as int, b as int);
    if a == b {
        Some(None)
    } else if s[a] == '+' {
        let text = text_of_range(s, a + 1, b);
        assert(t.drop_first() =~= text@);
        Some(Some(text))
    } else {
        None
    }
}

fn decode_u32(s: &Vec<char>, a: usize, b: usize) -> (r: Option<u32>)
    requires
        a <= b <= s.len(),
    ensures
        r == field_u32(s@.subrange(a as int, b as int)),
{
    match parse_nat_range(s, a, b) {
        Some(n) => if n <= 4_294_967_295u64 {
            Some(n as u32)
        } else {
            None
        },
        None => None,
    }
}

fn decode_opt_i32(s: &Vec<char>, a: usize, b: usize) -> (r: Option<Option<i32>>)
    requires
        a <= b <= s.len(),
    ensures
        r == field_opt_i32(s@.subrange(a as int, b as int)),
{
    if a == b {
        return Some(None);
    }
    match parse_i64_range(s, a, b) {
        Some(i) => if -2_147_483_648i64 <= i && i <= 2_147_483_647i64 {
            Some(Some(i as i32))
        } else {
            None
        },
        None => None,
    }
}

fn decode_status(s: &Vec<char>, a: usize, b: usize) -> (r: Option<TaskStatus>)
    requires
        a <= b <= s.len(),
    ensures
        r == field_status(s@.subrange(a as int, b as int)),
{
    let ghost t = s@.subrange(a as int, b as int);
    let ghost r_seq: Seq<char> = seq!['R'];
    let ghost c_seq: Seq<char> = seq!['C'];
    assert(r_seq.len() == 1 && r_seq[0] == 'R');
    assert(c_seq.len() == 1 && c_seq[0] == 'C');
    if b - a == 1 {
        assert(t.len() == 1 && t[0] == s@[a as int]);
        if s[a] == 'R' {
            assert(t =~= r_seq);
            Some(TaskStatus::Running)
        } else if s[a] == 'C' {
            assert(t =~= c_seq);
            assert(t != r_seq);
            Some(TaskStatus::CompletedButUnread)
        } else {
            assert(t != r_seq && t != c_seq);
            None
        }
    } else {
        assert(t.len() != 1);
        assert(t != r_seq && t != c_seq);
        None
    }
}

pub open spec fn fields_at(s: Seq<char>, bounds: Seq<(usize, usize)>) -> Seq<Seq<char>> {
    Seq::new(bounds.len(), |i: int| s.subrange(bounds[i].0 as int, bounds[i].1 as int))
}

/// Splits `s` into exactly as many framed fields as a record has.
fn split_fields(s: &Vec<char>) -> (r: Option<Vec<(usize, usize)>>)
    ensures
        match r {
            Some(bounds) => {
                &&& bounds.len() == RECORD_FIELDS
                &&& forall|i: int|
                    0 <= i < bounds.len() ==> (#[trigger] bounds@[i]).0 <= bounds@[i].1 <= s.len()
                &&& parse_frames(s@, RECORD_FIELDS as nat) == Some(fields_at(s@, bounds@))
            },
            None => parse_frames(s@, RECORD_FIELDS as nat) is None,
        },
{
    let mut bounds: Vec<(usize, usize)> = Vec::new();
    let ghost mut got: Seq<Seq<char>> = Seq::empty();
    let mut pos: usize = 0;
    proof {
        assert(s@.skip(0) =~= s@);
        match parse_frames(s@, RECORD_FIELDS as nat) {
            Some(ts) => {
                assert(got + ts =~= ts);
            },
            None => {},
        }
    }
    while bounds.len() < RECORD_FIELDS
        invariant
            pos <= s.len(),
            bounds.len() <= RECORD_FIELDS,
            got.len() == bounds.len(),
            forall|i: int|
                0 <= i < bounds.len() ==> {
                    &&& (#[trigger] bounds@[i]).0 <= bounds@[i].1 <= s.len()
                    &&& got[i] == s@.subrange(bounds@[i].0 as int, bounds@[i].1 as int)
                },
            parse_frames(s@, RECORD_FIELDS as nat) == match parse_frames(
                s@.skip(pos as int),
                (RECORD_FIELDS - bounds.len()) as nat,
            ) {
                Some(ts) => Some(got + ts),
                None => None::<Seq<Seq<char>>>,
            },
        decreases RECORD_FIELDS - bounds.len(),
    {
        match next_frame(s, pos) {
            Some((a, b)) => {
                let ghost left = (RECORD_FIELDS - bounds.len()) as nat;
                let ghost field = s@.subrange(a as int, b as int);
                proof {
                    match parse_frames(s@.skip(b as int), (left - 1) as nat) {
                        Some(ts) => {
                            assert(got + (seq![field] + ts) =~= got.push(field) + ts);
                        },
                        None => {},
                    }
                }
                bounds.push((a, b));
                proof {
                    got = got.push(field);
                }
                pos = b;
            },
            None => {
                assert(parse_frames(s@.skip(pos as int), (RECORD_FIELDS - bounds.len()) as nat) is None);
                return None;
            },
        }
    }
    if pos != s.len() {
        assert(s@.skip(pos as int).len() > 0);
        return None;
    }
    assert(s@.skip(pos as int).len() == 0);
    assert(got + Seq::<Seq<char>>::empty() =~= got);
    assert(got =~= fields_at(s@, bounds@));
    Some(bounds)
}

/// Reads the fields of a record from their bounds in `s`.
fn record_from_bounds(s: &Vec<char>, bounds: &Vec<(usize, usize)>) -> (r: Option<TaskRecord>)
    requires
        bounds.len() == RECORD_FIELDS,
        forall|i: int| 0 <= i < bounds.len() ==> (#[trigger] bounds@[i]).0 <= bounds@[i].1 <= s.len(),
    ensures
        match r {
            Some(rec) => record_from_fields(fields_at(s@, bounds@)) == Some(rec@),
            None => record_from_fields(fields_at(s@, bounds@)) is None,
        },
{
    let ghost ts = fields_at(s@, bounds@);
    assert(bounds@[0].0 <= bounds@[0].1 <= s.len());
    assert(bounds@[1].0 <= bounds@[1].1 <= s.len());
    assert(bounds@[2].0 <= bounds@[2].1 <= s.len());
    assert(bounds@[3].0 <= bounds@[3].1 <= s.len());
    assert(bounds@[4].0 <= bounds@[4].1 <= s.len());
    assert(bounds@[5].0 <= bounds@[5].1 <= s.len());
    assert(bounds@[6].0 <= bounds@[6].1 <= s.len());
    assert(bounds@[7].0 <= bounds@[7].1 <= s.len());
    assert(bounds@[8].0 <= bounds@[8].1 <= s.len());
    assert(bounds@[9].0 <= bounds@[9].1 <= s.len());
    assert(bounds@[10].0 <= bounds@[10].1 <= s.len());
    let secs = match parse_i64_range(s, bounds[0].0, bounds[0].1) {
        Some(v) => v,
        None => return None,
    };
    let nanos = match decode_u32(s, bounds[1].0, bounds[1].1) {
        Some(v) => v,
        None => return None,
    };
    let log_id = text_of_range(s, bounds[2].0, bounds[2].1);
    let log_path = text_of_range(s, bounds[3].0, bounds[3].1);
    let manager_pid = if bounds[4].0 == bounds[4].1 {
        None
    } else {
        match decode_u32(s, bounds[4].0, bounds[4].1) {
            Some(v) => Some(v),
            None => return None,
        }
    };
    let cleanup_reason = match decode_opt_text(s, bounds[5].0, bounds[5].1) {
        Some(v) => v,
        None => return None,
    };
    let status = match decode_status(s, bounds[6].0, bounds[6].1) {
        Some(v) => v,
        None => return None,
    };
    let result = match decode_opt_text(s, bounds[7].0, bounds[7].1) {
        Some(v) => v,
        None => return None,
    };
    let completed_at = if bounds[8].0 == bounds[8].1 && bounds[9].0 == bounds[9].1 {
        None
    } else {
        let c_secs = parse_i64_range(s, bounds[8].0, bounds[8].1);
        let c_nanos = decode_u32(s, bounds[9].0, bounds[9].1);
        match (c_secs, c_nanos) {
            (Some(cs), Some(cn)) => Some(Timestamp { secs: cs, nanos: cn }),
            _ => return None,
        }
    };
    let exit_code = match decode_opt_i32(s, bounds[10].0, bounds[10].1) {
        Some(v) => v,
        None => return None,
    };
    let record = TaskRecord {
        started_at: Timestamp { secs, nanos },
        log_id,
        log_path,
        manager_pid,
        cleanup_reason,
        status,
        result,
        completed_at,
        exit_code,
    };
    Some(record)
}

/// The record that a registry text stands for, or `None` when the text is
/// not a well-formed encoding.
pub fn decode_record(text: &str) -> (r: Option<TaskRecord>)
    ensures
        match r {
            Some(rec) => decode_spec(text@) == Some(rec@),
            None => decode_spec(text@) is None,
        },
{
    let s = chars_of(text);
    match split_fields(&s) {
        Some(bounds) => record_from_bounds(&s, &bounds),
        None => None,
    }
}

} // verus!
