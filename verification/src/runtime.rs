use vstd::prelude::*;

verus! {

// The runtime contract of the emitted routine, stated over bytes: what the
// generated text, once compiled against the external tokenizer, does to an
// input buffer. `run_spec` is the routine's meaning; `run_object` executes
// that meaning so the behaviour can be exercised directly.

/// How the emitted routine fails: the five failure shapes its caller can see.
/// `ExpectedString` and `UnterminatedString` stand for the tokenizer's own
/// string-parse failures, which the routine propagates unchanged.
#[derive(Clone, Copy, PartialEq, Eq, Structural, Debug)]
pub enum RunError {
    ExpectedObject,
    ExpectedString,
    UnterminatedString,
    ExpectedColon,
    MissingRequiredField,
    ExpectedClosingBrace,
}

/// JSON insignificant whitespace: space, tab, line feed, carriage return.
pub open spec fn is_ws(b: u8) -> bool {
    b == 32 || b == 9 || b == 10 || b == 13
}

/// The cursor after skipping whitespace from `pos`: the first position at or
/// after `pos` holding a non-whitespace byte, or the end of the buffer.
pub open spec fn skip_ws_spec(data: Seq<u8>, pos: int) -> int
    decreases data.len() - pos,
{
    if 0 <= pos < data.len() && is_ws(data[pos]) {
        skip_ws_spec(data, pos + 1)
    } else {
        pos
    }
}

pub proof fn lemma_skip_ws_props(data: Seq<u8>, pos: int)
    requires
        0 <= pos <= data.len(),
    ensures
        pos <= skip_ws_spec(data, pos) <= data.len(),
        forall|k: int| pos <= k < skip_ws_spec(data, pos) ==> is_ws(data[k]),
        skip_ws_spec(data, pos) < data.len() ==> !is_ws(data[skip_ws_spec(data, pos)]),
    decreases data.len() - pos,
{
    if pos < data.len() && is_ws(data[pos]) {
        lemma_skip_ws_props(data, pos + 1);
    }
}

/// Skipping from anywhere inside a run of whitespace lands at the same place.
pub proof fn lemma_skip_ws_stable(data: Seq<u8>, a: int, c: int)
    requires
        0 <= a <= c <= data.len(),
        forall|k: int| a <= k < c ==> is_ws(data[k]),
    ensures
        skip_ws_spec(data, a) == skip_ws_spec(data, c),
    decreases c - a,
{
    if a < c {
        lemma_skip_ws_stable(data, a + 1, c);
    }
}

/// Index of the first occurrence of `b` at or after `i`.
pub open spec fn find_byte_from(data: Seq<u8>, i: int, b: u8) -> Option<int>
    decreases data.len() - i,
{
    if i < 0 || i >= data.len() {
        None
    } else if data[i] == b {
        Some(i)
    } else {
        find_byte_from(data, i + 1, b)
    }
}

pub proof fn lemma_find_byte_props(data: Seq<u8>, i: int, b: u8)
    requires
        0 <= i <= data.len(),
    ensures
        match find_byte_from(data, i, b) {
            Some(j) => i <= j < data.len() && data[j] == b && (forall|k: int|
                i <= k < j ==> data[k] != b),
            None => forall|k: int| i <= k < data.len() ==> data[k] != b,
        },
    decreases data.len() - i,
{
    if i < data.len() && data[i] != b {
        lemma_find_byte_props(data, i + 1, b);
    }
}

/// Where the first occurrence is known, the search finds exactly it.
pub proof fn lemma_find_byte_exact(data: Seq<u8>, i: int, j: int, b: u8)
    requires
        0 <= i <= j < data.len(),
        data[j] == b,
        forall|k: int| i <= k < j ==> data[k] != b,
    ensures
        find_byte_from(data, i, b) == Some(j),
    decreases j - i,
{
    if i < j {
        lemma_find_byte_exact(data, i + 1, j, b);
    }
}

/// A successfully consumed string token: its contents and the cursor after
/// its closing quote.
pub ghost struct StrTok {
    pub s: Seq<u8>,
    pub end: int,
}

/// The tokenizer's string operation: skip whitespace, require a `"`, take
/// everything up to the next `"`. On failure the cursor stands where the
/// quote was looked for.
pub open spec fn parse_string_spec(data: Seq<u8>, pos: int) -> Result<StrTok, (RunError, int)> {
    let p = skip_ws_spec(data, pos);
    if !(p < data.len() && data[p] == 34) {
        Err((RunError::ExpectedString, p))
    } else {
        match find_byte_from(data, p + 1, 34) {
            None => Err((RunError::UnterminatedString, p)),
            Some(q) => Ok(StrTok { s: data.subrange(p + 1, q), end: q + 1 }),
        }
    }
}

pub proof fn lemma_parse_string_props(data: Seq<u8>, pos: int)
    requires
        0 <= pos <= data.len(),
    ensures
        match parse_string_spec(data, pos) {
            Ok(tok) => pos + 2 <= tok.end <= data.len(),
            Err((e, p)) => pos <= p <= data.len() && (e == RunError::ExpectedString || e
                == RunError::UnterminatedString),
        },
{
    lemma_skip_ws_props(data, pos);
    let p = skip_ws_spec(data, pos);
    if p < data.len() && data[p] == 34 {
        lemma_find_byte_props(data, p + 1, 34);
    }
}

/// Advances the cursor past whitespace, as the tokenizer's
/// `skip_whitespace` does: no failure mode.
pub fn skip_whitespace(data: &Vec<u8>, pos: &mut usize)
    requires
        *old(pos) <= data@.len(),
    ensures
        *final(pos) == skip_ws_spec(data@, *old(pos) as int),
        *old(pos) <= *final(pos) <= data@.len(),
{
    proof {
        lemma_skip_ws_props(data@, *old(pos) as int);
    }
    while *pos < data.len() && (data[*pos] == 32 || data[*pos] == 9 || data[*pos] == 10 || data[*pos]
        == 13)
        invariant
            *old(pos) <= *pos <= data@.len(),
            skip_ws_spec(data@, *old(pos) as int) == skip_ws_spec(data@, *pos as int),
        decreases data@.len() - *pos,
    {
        assert(skip_ws_spec(data@, *pos as int) == skip_ws_spec(data@, *pos + 1));
        *pos = *pos + 1;
    }
}

/// First `"` at or after `start`.
fn find_quote(data: &Vec<u8>, start: usize) -> (r: Option<usize>)
    requires
        start <= data@.len(),
    ensures
        match r {
            Some(j) => find_byte_from(data@, start as int, 34) == Some(j as int) && start <= j
                < data@.len(),
            None => find_byte_from(data@, start as int, 34) is None,
        },
{
    let mut i: usize = start;
    while i < data.len()
        invariant
            start <= i <= data@.len(),
            find_byte_from(data@, start as int, 34) == find_byte_from(data@, i as int, 34),
        decreases data@.len() - i,
    {
        if data[i] == 34 {
            return Some(i);
        }
        assert(find_byte_from(data@, i as int, 34) == find_byte_from(data@, i + 1, 34));
        i = i + 1;
    }
    None
}

/// Consumes one JSON string token, as the tokenizer's `parse_string` does:
/// returns its contents and leaves the cursor after the closing quote, or
/// fails where no quote opens or none closes.
pub fn parse_string(data: &Vec<u8>, pos: &mut usize) -> (r: Result<Vec<u8>, RunError>)
    requires
        *old(pos) <= data@.len(),
    ensures
        match r {
            Ok(s) => parse_string_spec(data@, *old(pos) as int) matches Ok(tok) && s@ == tok.s
                && *final(pos) == tok.end,
            Err(e) => parse_string_spec(data@, *old(pos) as int) matches Err((e2, p2)) && e == e2
                && *final(pos) == p2,
        },
{
    skip_whitespace(data, pos);
    if !(*pos < data.len() && data[*pos] == 34) {
        return Err(RunError::ExpectedString);
    }
    let q = match find_quote(data, *pos + 1) {
        Some(q) => q,
        None => {
            return Err(RunError::UnterminatedString);
        },
    };
    let start = *pos + 1;
    let mut s: Vec<u8> = Vec::new();
    let mut k: usize = start;
    while k < q
        invariant
            start <= k <= q <= data@.len(),
            s@ == data@.subrange(start as int, k as int),
        decreases q - k,
    {
        s.push(data[k]);
        assert(s@ =~= data@.subrange(start as int, k + 1));
        k = k + 1;
    }
    *pos = q + 1;
    Ok(s)
}

/// First schema field equal to `key`, scanning from `i`: the dispatch chain
/// is a first-match else-if chain.
pub open spec fn first_match_from(fields: Seq<Seq<u8>>, key: Seq<u8>, i: int) -> Option<int>
    decreases fields.len() - i,
{
    if i < 0 || i >= fields.len() {
        None
    } else if fields[i] == key {
        Some(i)
    } else {
        first_match_from(fields, key, i + 1)
    }
}

pub open spec fn first_match(fields: Seq<Seq<u8>>, key: Seq<u8>) -> Option<int> {
    first_match_from(fields, key, 0)
}

pub proof fn lemma_first_match_from_props(fields: Seq<Seq<u8>>, key: Seq<u8>, i: int)
    requires
        0 <= i <= fields.len(),
    ensures
        match first_match_from(fields, key, i) {
            Some(t) => i <= t < fields.len() && fields[t] == key && (forall|k: int|
                i <= k < t ==> fields[k] != key),
            None => forall|k: int| i <= k < fields.len() ==> fields[k] != key,
        },
    decreases fields.len() - i,
{
    if i < fields.len() && fields[i] != key {
        lemma_first_match_from_props(fields, key, i + 1);
    }
}

/// What one matched key/value pair does to the record under construction:
/// the first matching field takes the value and its presence flag is set; an
/// unrecognized key changes nothing (its value was parsed and discarded).
pub open spec fn store_field(
    fields: Seq<Seq<u8>>,
    key: Seq<u8>,
    value: Seq<u8>,
    vals: Seq<Seq<u8>>,
    flags: Seq<bool>,
) -> (Seq<Seq<u8>>, Seq<bool>) {
    match first_match(fields, key) {
        None => (vals, flags),
        Some(t) => (vals.update(t, value), flags.update(t, true)),
    }
}

/// The routine's member loop, from cursor `pos` with the record and flags so
/// far: skip whitespace; stop without error at `}` or at the buffer's end;
/// otherwise consume a key string, a colon, a value string, dispatch on the
/// key, step over one optional comma, and continue. Any tokenizer failure or
/// missing colon stops the loop with that error.
pub open spec fn run_loop(
    fields: Seq<Seq<u8>>,
    data: Seq<u8>,
    pos: int,
    vals: Seq<Seq<u8>>,
    flags: Seq<bool>,
) -> (Option<RunError>, int, Seq<Seq<u8>>, Seq<bool>)
    decreases data.len() - pos,
    when 0 <= pos <= data.len()
    via run_loop_decreases
{
    let p = skip_ws_spec(data, pos);
    if p >= data.len() || data[p] == 125 {
        (None, p, vals, flags)
    } else {
        match parse_string_spec(data, p) {
            Err((e, ep)) => (Some(e), ep, vals, flags),
            Ok(key) => {
                let p3 = skip_ws_spec(data, key.end);
                if p3 >= data.len() || data[p3] != 58 {
                    (Some(RunError::ExpectedColon), p3, vals, flags)
                } else {
                    match parse_string_spec(data, p3 + 1) {
                        Err((e, ep)) => (Some(e), ep, vals, flags),
                        Ok(value) => {
                            let sv = store_field(fields, key.s, value.s, vals, flags);
                            let p6 = skip_ws_spec(data, value.end);
                            let p7 = if p6 < data.len() && data[p6] == 44 {
                                p6 + 1
                            } else {
                                p6
                            };
                            run_loop(fields, data, p7, sv.0, sv.1)
                        },
                    }
                }
            },
        }
    }
}

#[via_fn]
proof fn run_loop_decreases(
    fields: Seq<Seq<u8>>,
    data: Seq<u8>,
    pos: int,
    vals: Seq<Seq<u8>>,
    flags: Seq<bool>,
) {
    lemma_skip_ws_props(data, pos);
    let p = skip_ws_spec(data, pos);
    if !(p >= data.len() || data[p] == 125) {
        lemma_parse_string_props(data, p);
        match parse_string_spec(data, p) {
            Err(_) => {},
            Ok(key) => {
                lemma_skip_ws_props(data, key.end);
                let p3 = skip_ws_spec(data, key.end);
                if !(p3 >= data.len() || data[p3] != 58) {
                    lemma_parse_string_props(data, p3 + 1);
                    match parse_string_spec(data, p3 + 1) {
                        Err(_) => {},
                        Ok(value) => {
                            lemma_skip_ws_props(data, value.end);
                        },
                    }
                }
            },
        }
    }
}

/// A record with every field defaulted to the empty string.
pub open spec fn empty_vals(n: nat) -> Seq<Seq<u8>> {
    Seq::new(n, |i: int| Seq::<u8>::empty())
}

/// One presence flag per field, all false.
pub open spec fn init_flags(n: nat) -> Seq<bool> {
    Seq::new(n, |i: int| false)
}

/// The required-field check: every presence flag set; vacuously true of an
/// empty schema.
pub open spec fn all_set(flags: Seq<bool>) -> bool {
    forall|i: int| 0 <= i < flags.len() ==> flags[i]
}

/// The emitted routine's whole meaning: the result it returns and the cursor
/// it leaves, for a schema's field list, a buffer, and a starting cursor.
/// Failure order after the loop: a loop error first, then the missing-field
/// check, then the closing brace.
pub open spec fn run_spec(fields: Seq<Seq<u8>>, data: Seq<u8>, pos: int) -> (Result<
    Seq<Seq<u8>>,
    RunError,
>, int) {
    let p = skip_ws_spec(data, pos);
    if p >= data.len() || data[p] != 123 {
        (Err(RunError::ExpectedObject), p)
    } else {
        let lr = run_loop(fields, data, p + 1, empty_vals(fields.len()), init_flags(fields.len()));
        match lr.0 {
            Some(e) => (Err(e), lr.1),
            None => if !all_set(lr.3) {
                (Err(RunError::MissingRequiredField), lr.1)
            } else if lr.1 >= data.len() || data[lr.1] != 125 {
                (Err(RunError::ExpectedClosingBrace), lr.1)
            } else {
                (Ok(lr.2), lr.1 + 1)
            },
        }
    }
}

/// The byte sequences a vector of buffers holds.
pub open spec fn views_of(vs: Seq<Vec<u8>>) -> Seq<Seq<u8>> {
    vs.map_values(|v: Vec<u8>| v@)
}

/// First schema field equal to `key`, as the dispatch chain matches it.
fn find_field(fields: &Vec<Vec<u8>>, key: &Vec<u8>) -> (r: Option<usize>)
    ensures
        match r {
            Some(t) => first_match(views_of(fields@), key@) == Some(t as int) && t < fields@.len(),
            None => first_match(views_of(fields@), key@) is None,
        },
{
    let ghost fs = views_of(fields@);
    let mut i: usize = 0;
    while i < fields.len()
        invariant
            i <= fields@.len(),
            fs == views_of(fields@),
            first_match(fs, key@) == first_match_from(fs, key@, i as int),
        decreases fields@.len() - i,
    {
        if bytes_eq(&fields[i], key) {
            return Some(i);
        }
        assert(first_match_from(fs, key@, i as int) == first_match_from(fs, key@, i + 1));
        i = i + 1;
    }
    None
}

/// Byte-for-byte equality of two buffers.
fn bytes_eq(a: &Vec<u8>, b: &Vec<u8>) -> (r: bool)
    ensures
        r == (a@ == b@),
{
    if a.len() != b.len() {
        assert(a@ != b@);
        return false;
    }
    let mut i: usize = 0;
    while i < a.len()
        invariant
            i <= a@.len(),
            a@.len() == b@.len(),
            forall|k: int| 0 <= k < i ==> a@[k] == b@[k],
        decreases a@.len() - i,
    {
        if a[i] != b[i] {
            return false;
        }
        i = i + 1;
    }
    proof {
        assert(a@ =~= b@);
    }
    true
}

/// The member loop of the emitted routine, over the schema's field list:
/// returns the loop's error, if any, and leaves cursor, record and flags as
/// `run_loop` says.
#[verifier::loop_isolation(false)]
fn run_members(
    fields: &Vec<Vec<u8>>,
    data: &Vec<u8>,
    pos: &mut usize,
    vals: &mut Vec<Vec<u8>>,
    flags: &mut Vec<bool>,
) -> (r: Option<RunError>)
    requires
        *old(pos) <= data@.len(),
        old(vals)@.len() == fields@.len(),
        old(flags)@.len() == fields@.len(),
    ensures
        ({
            let lr = run_loop(
                views_of(fields@),
                data@,
                *old(pos) as int,
                views_of(old(vals)@),
                old(flags)@,
            );
            &&& lr.0 == r
            &&& lr.1 == *final(pos) as int
            &&& lr.2 == views_of(final(vals)@)
            &&& lr.3 == final(flags)@
        }),
{
    let ghost fs = views_of(fields@);
    let ghost d = data@;
    let ghost target = run_loop(fs, d, *old(pos) as int, views_of(old(vals)@), old(flags)@);
    loop
        invariant
            *pos <= data@.len(),
            fs == views_of(fields@),
            d == data@,
            vals@.len() == fields@.len(),
            flags@.len() == fields@.len(),
            run_loop(fs, d, *pos as int, views_of(vals@), flags@) == target,
        decreases d.len() - *pos,
    {
        let ghost pos0 = *pos as int;
        let ghost vals0 = views_of(vals@);
        let ghost flags0 = flags@;
        proof {
            lemma_skip_ws_props(d, pos0);
        }
        skip_whitespace(data, pos);
        if *pos >= data.len() || data[*pos] == 125 {
            return None;
        }
        proof {
            lemma_parse_string_props(d, *pos as int);
        }
        let key = match parse_string(data, pos) {
            Ok(k) => k,
            Err(e) => {
                return Some(e);
            },
        };
        skip_whitespace(data, pos);
        if *pos >= data.len() || data[*pos] != 58 {
            return Some(RunError::ExpectedColon);
        }
        *pos = *pos + 1;
        proof {
            lemma_parse_string_props(d, *pos as int);
        }
        let value = match parse_string(data, pos) {
            Ok(v) => v,
            Err(e) => {
                return Some(e);
            },
        };
        match find_field(fields, &key) {
            Some(t) => {
                let ghost prev = views_of(vals@);
                let ghost vv = value@;
                vals.set(t, value);
                flags.set(t, true);
                proof {
                    assert(views_of(vals@) =~= prev.update(t as int, vv));
                }
            },
            None => {},
        }
        skip_whitespace(data, pos);
        if *pos < data.len() && data[*pos] == 44 {
            *pos = *pos + 1;
        }
        proof {
            assert(run_loop(fs, d, *pos as int, views_of(vals@), flags@) == target);
        }
    }
}

/// Whether every presence flag is set.
fn all_flags_set(flags: &Vec<bool>) -> (r: bool)
    ensures
        r == all_set(flags@),
{
    let mut i: usize = 0;
    while i < flags.len()
        invariant
            i <= flags@.len(),
            forall|k: int| 0 <= k < i ==> flags@[k],
        decreases flags@.len() - i,
    {
        if !flags[i] {
            return false;
        }
        i = i + 1;
    }
    true
}

/// The emitted routine itself, for the given field list: reads one JSON
/// object from `data` at `pos`, returns the parsed field values in schema
/// order, and leaves the cursor exactly as `run_spec` says — also on
/// failure, where the partial record is discarded.
#[verifier::loop_isolation(false)]
pub fn run_object(fields: &Vec<Vec<u8>>, data: &Vec<u8>, pos: &mut usize) -> (r: Result<
    Vec<Vec<u8>>,
    RunError,
>)
    requires
        *old(pos) <= data@.len(),
    ensures
        ({
            let (res, p) = run_spec(views_of(fields@), data@, *old(pos) as int);
            &&& *final(pos) as int == p
            &&& match (r, res) {
                (Ok(v), Ok(sv)) => views_of(v@) == sv,
                (Err(e), Err(se)) => e == se,
                _ => false,
            }
        }),
{
    let ghost fs = views_of(fields@);
    let ghost d = data@;
    skip_whitespace(data, pos);
    if *pos >= data.len() || data[*pos] != 123 {
        return Err(RunError::ExpectedObject);
    }
    *pos = *pos + 1;
    let mut vals: Vec<Vec<u8>> = Vec::new();
    let mut flags: Vec<bool> = Vec::new();
    let mut i: usize = 0;
    while i < fields.len()
        invariant
            i <= fields@.len(),
            vals@.len() == i,
            flags@.len() == i,
            forall|k: int| 0 <= k < i ==> vals@[k]@ == Seq::<u8>::empty(),
            forall|k: int| 0 <= k < i ==> flags@[k] == false,
        decreases fields@.len() - i,
    {
        vals.push(Vec::new());
        flags.push(false);
        i = i + 1;
    }
    proof {
        assert(views_of(vals@) =~= empty_vals(fields@.len() as nat));
        assert(flags@ =~= init_flags(fields@.len() as nat));
    }
    let err = run_members(fields, data, pos, &mut vals, &mut flags);
    match err {
        Some(e) => Err(e),
        None => {
            if !all_flags_set(&flags) {
                return Err(RunError::MissingRequiredField);
            }
            if *pos >= data.len() || data[*pos] != 125 {
                return Err(RunError::ExpectedClosingBrace);
            }
            *pos = *pos + 1;
            Ok(vals)
        },
    }
}

// What the routine accepts: an object rendered from members, each member
// whitespace, a quoted key, whitespace, a colon, whitespace, a quoted value,
// whitespace, and a comma after every member but possibly the last.

/// Whitespace bytes only.
pub open spec fn ws_only(s: Seq<u8>) -> bool {
    forall|i: int| 0 <= i < s.len() ==> is_ws(#[trigger] s[i])
}

/// No quote byte: the contents of a string token in this model.
pub open spec fn quote_free(s: Seq<u8>) -> bool {
    forall|i: int| 0 <= i < s.len() ==> #[trigger] s[i] != 34
}

/// One key/value member of a rendered object.
pub ghost struct Member {
    pub lead: Seq<u8>,
    pub key: Seq<u8>,
    pub mid: Seq<u8>,
    pub pre_value: Seq<u8>,
    pub value: Seq<u8>,
    pub post: Seq<u8>,
    pub comma: bool,
}

pub open spec fn wf_member(m: Member) -> bool {
    &&& ws_only(m.lead)
    &&& quote_free(m.key)
    &&& ws_only(m.mid)
    &&& ws_only(m.pre_value)
    &&& quote_free(m.value)
    &&& ws_only(m.post)
}

/// Well-formed member list: each member well formed, and a comma after every
/// member except possibly the last.
pub open spec fn wf_members(ms: Seq<Member>) -> bool {
    forall|i: int|
        0 <= i < ms.len() ==> wf_member(#[trigger] ms[i]) && (i + 1 < ms.len() ==> ms[i].comma)
}

pub open spec fn comma_text(c: bool) -> Seq<u8> {
    if c {
        seq![44u8]
    } else {
        Seq::<u8>::empty()
    }
}

pub open spec fn render_member(m: Member) -> Seq<u8> {
    m.lead + seq![34u8] + m.key + seq![34u8] + m.mid + seq![58u8] + m.pre_value + seq![34u8]
        + m.value + seq![34u8] + m.post + comma_text(m.comma)
}

pub open spec fn render_members(ms: Seq<Member>) -> Seq<u8>
    decreases ms.len(),
{
    if ms.len() == 0 {
        Seq::<u8>::empty()
    } else {
        render_member(ms[0]) + render_members(ms.drop_first())
    }
}

/// The keys a member list carries.
pub open spec fn keys_of(ms: Seq<Member>) -> Seq<Seq<u8>> {
    ms.map_values(|m: Member| m.key)
}

/// First member bearing `key`.
pub open spec fn member_with_key(ms: Seq<Member>, key: Seq<u8>) -> Option<int>
    decreases ms.len(),
{
    if ms.len() == 0 {
        None
    } else if ms[0].key == key {
        Some(0)
    } else {
        match member_with_key(ms.drop_first(), key) {
            None => None,
            Some(j) => Some(j + 1),
        }
    }
}

pub proof fn lemma_member_with_key_props(ms: Seq<Member>, key: Seq<u8>)
    ensures
        match member_with_key(ms, key) {
            Some(j) => 0 <= j < ms.len() && ms[j].key == key,
            None => forall|j: int| 0 <= j < ms.len() ==> (#[trigger] ms[j]).key != key,
        },
    decreases ms.len(),
{
    if ms.len() > 0 && ms[0].key != key {
        lemma_member_with_key_props(ms.drop_first(), key);
        match member_with_key(ms.drop_first(), key) {
            Some(j) => {
                assert(ms.drop_first()[j] == ms[j + 1]);
            },
            None => {
                assert forall|j: int| 0 <= j < ms.len() implies (#[trigger] ms[j]).key != key by {
                    if j > 0 {
                        assert(ms.drop_first()[j - 1] == ms[j]);
                    }
                }
            },
        }
    }
}

/// What the whole member list does to the record: each member stored in turn.
pub open spec fn store_all(
    fields: Seq<Seq<u8>>,
    ms: Seq<Member>,
    vals: Seq<Seq<u8>>,
    flags: Seq<bool>,
) -> (Seq<Seq<u8>>, Seq<bool>)
    decreases ms.len(),
{
    if ms.len() == 0 {
        (vals, flags)
    } else {
        let sv = store_field(fields, ms[0].key, ms[0].value, vals, flags);
        store_all(fields, ms.drop_first(), sv.0, sv.1)
    }
}

/// No two equal entries.
pub open spec fn distinct_keys(fs: Seq<Seq<u8>>) -> bool {
    forall|i: int, j: int| 0 <= i < j < fs.len() ==> fs[i] != fs[j]
}

/// `seg` stands in `data` at `pos`.
pub open spec fn seg_at(data: Seq<u8>, pos: int, seg: Seq<u8>) -> bool {
    &&& 0 <= pos
    &&& pos + seg.len() <= data.len()
    &&& data.subrange(pos, pos + seg.len()) == seg
}

pub proof fn lemma_seg_split(data: Seq<u8>, pos: int, a: Seq<u8>, b: Seq<u8>)
    requires
        seg_at(data, pos, a + b),
    ensures
        seg_at(data, pos, a),
        seg_at(data, pos + a.len(), b),
{
    assert forall|k: int| 0 <= k < a.len() implies data.subrange(pos, pos + a.len())[k] == a[k] by {
        assert(data.subrange(pos, pos + (a + b).len())[k] == (a + b)[k]);
    }
    assert(data.subrange(pos, pos + a.len()) =~= a);
    assert forall|k: int|
        0 <= k < b.len() implies data.subrange(
        pos + a.len(),
        pos + a.len() + b.len(),
    )[k] == b[k] by {
        assert(data.subrange(pos, pos + (a + b).len())[a.len() + k] == (a + b)[a.len() + k]);
    }
    assert(data.subrange(pos + a.len(), pos + a.len() + b.len()) =~= b);
}

pub proof fn lemma_seg_bytes(data: Seq<u8>, pos: int, seg: Seq<u8>)
    requires
        seg_at(data, pos, seg),
    ensures
        forall|k: int| 0 <= k < seg.len() ==> data[pos + k] == #[trigger] seg[k],
{
    assert forall|k: int| 0 <= k < seg.len() implies data[pos + k] == #[trigger] seg[k] by {
        assert(data.subrange(pos, pos + seg.len())[k] == seg[k]);
    }
}

pub proof fn lemma_seg_byte(data: Seq<u8>, pos: int, b: u8)
    requires
        seg_at(data, pos, seq![b]),
    ensures
        pos < data.len() && data[pos] == b,
{
    assert(data.subrange(pos, pos + 1)[0] == seq![b][0]);
}

/// A whitespace segment followed by a non-whitespace byte (or the end) is
/// exactly what the skip consumes.
pub proof fn lemma_skip_ws_seg(data: Seq<u8>, pos: int, ws: Seq<u8>)
    requires
        seg_at(data, pos, ws),
        ws_only(ws),
        pos + ws.len() == data.len() || !is_ws(data[pos + ws.len()]),
    ensures
        skip_ws_spec(data, pos) == pos + ws.len(),
{
    lemma_seg_bytes(data, pos, ws);
    assert forall|k: int| pos <= k < pos + ws.len() implies is_ws(data[k]) by {
        assert(data[pos + (k - pos)] == ws[k - pos]);
    }
    lemma_skip_ws_stable(data, pos, pos + ws.len());
}

/// A whitespace-then-quoted segment is exactly one string token.
pub proof fn lemma_parse_string_at(data: Seq<u8>, pos: int, ws: Seq<u8>, s: Seq<u8>)
    requires
        ws_only(ws),
        quote_free(s),
        seg_at(data, pos, ws + seq![34u8] + s + seq![34u8]),
    ensures
        parse_string_spec(data, pos) == Ok::<StrTok, (RunError, int)>(
            StrTok { s, end: pos + ws.len() + s.len() + 2 },
        ),
        skip_ws_spec(data, pos) == pos + ws.len(),
{
    let t = ws + seq![34u8] + s + seq![34u8];
    let k0 = pos + ws.len();
    let k1 = k0 + 1 + s.len();
    assert(t =~= ws + (seq![34u8] + (s + seq![34u8])));
    lemma_seg_split(data, pos, ws, seq![34u8] + (s + seq![34u8]));
    lemma_seg_split(data, k0, seq![34u8], s + seq![34u8]);
    lemma_seg_byte(data, k0, 34u8);
    lemma_skip_ws_seg(data, pos, ws);
    lemma_seg_split(data, k0 + 1, s, seq![34u8]);
    lemma_seg_byte(data, k1, 34u8);
    lemma_seg_bytes(data, k0 + 1, s);
    assert forall|k: int| k0 + 1 <= k < k1 implies data[k] != 34 by {
        assert(data[(k0 + 1) + (k - (k0 + 1))] == s[k - (k0 + 1)]);
    }
    lemma_find_byte_exact(data, k0 + 1, k1, 34);
    assert(data.subrange(k0 + 1, k1) == s);
    assert(skip_ws_spec(data, k0) == k0);
}

/// The member loop consumes a rendered member list and a trailing whitespace
/// run, stops at the closing brace, and stores every member.
#[verifier::rlimit(100)]
pub proof fn lemma_run_loop_render(
    fields: Seq<Seq<u8>>,
    data: Seq<u8>,
    pos: int,
    vals: Seq<Seq<u8>>,
    flags: Seq<bool>,
    ms: Seq<Member>,
    tail: Seq<u8>,
    rest: Seq<u8>,
)
    requires
        0 <= pos <= data.len(),
        data.subrange(pos, data.len() as int) == render_members(ms) + tail + seq![125u8] + rest,
        wf_members(ms),
        ws_only(tail),
        vals.len() == fields.len(),
        flags.len() == fields.len(),
    ensures
        ({
            let sv = store_all(fields, ms, vals, flags);
            run_loop(fields, data, pos, vals, flags) == (
                None::<RunError>,
                pos + render_members(ms).len() + tail.len(),
                sv.0,
                sv.1,
            )
        }),
    decreases ms.len(),
{
    let all = render_members(ms) + tail + seq![125u8] + rest;
    assert(all.len() == data.len() - pos) by {
        assert(data.subrange(pos, data.len() as int).len() == data.len() - pos);
    }
    assert(seg_at(data, pos, all));
    if ms.len() == 0 {
        let e = pos + tail.len();
        assert(all =~= tail + (seq![125u8] + rest));
        lemma_seg_split(data, pos, tail, seq![125u8] + rest);
        lemma_seg_split(data, e, seq![125u8], rest);
        lemma_seg_byte(data, e, 125u8);
        lemma_skip_ws_seg(data, pos, tail);
    } else {
        let m = ms[0];
        let rest_ms = ms.drop_first();
        assert(wf_member(m));
        assert(render_members(ms) == render_member(m) + render_members(rest_ms));
        let rm = render_member(m);
        let after = render_members(rest_ms) + tail + seq![125u8] + rest;
        let key_part = m.lead + seq![34u8] + m.key + seq![34u8];
        let e1 = pos + m.lead.len() + m.key.len() + 2;
        let c0 = e1 + m.mid.len();
        let val_part = m.pre_value + seq![34u8] + m.value + seq![34u8];
        let e2 = c0 + 1 + m.pre_value.len() + m.value.len() + 2;
        let q0 = e2 + m.post.len();
        let b = pos + rm.len();
        // Peel the member's pieces off the buffer.
        let rest1 = m.mid + seq![58u8] + val_part + m.post + comma_text(m.comma) + after;
        assert(all =~= key_part + rest1);
        lemma_seg_split(data, pos, key_part, rest1);
        lemma_parse_string_at(data, pos, m.lead, m.key);
        let rest2 = val_part + m.post + comma_text(m.comma) + after;
        assert(rest1 =~= m.mid + (seq![58u8] + rest2));
        lemma_seg_split(data, e1, m.mid, seq![58u8] + rest2);
        lemma_seg_split(data, c0, seq![58u8], rest2);
        lemma_seg_byte(data, c0, 58u8);
        lemma_skip_ws_seg(data, e1, m.mid);
        let rest3 = m.post + comma_text(m.comma) + after;
        assert(rest2 =~= val_part + rest3);
        lemma_seg_split(data, c0 + 1, val_part, rest3);
        lemma_parse_string_at(data, c0 + 1, m.pre_value, m.value);
        // Evaluate the loop's one step.
        let p = skip_ws_spec(data, pos);
        assert(p == pos + m.lead.len());
        assert(data[p] == 34);
        assert(parse_string_spec(data, p) == parse_string_spec(data, pos)) by {
            assert(skip_ws_spec(data, p) == p) by {
                assert(!is_ws(data[p]));
            }
        }
        let sv = store_field(fields, m.key, m.value, vals, flags);
        assert(sv.0.len() == fields.len() && sv.1.len() == fields.len()) by {
            lemma_first_match_from_props(fields, m.key, 0);
        }
        assert(store_all(fields, ms, vals, flags) == store_all(fields, rest_ms, sv.0, sv.1));
        assert(wf_members(rest_ms)) by {
            assert forall|i: int|
                0 <= i < rest_ms.len() implies wf_member(#[trigger] rest_ms[i]) && (i + 1
                < rest_ms.len() ==> rest_ms[i].comma) by {
                assert(rest_ms[i] == ms[i + 1]);
            }
        }
        if m.comma {
            assert(rest3 =~= m.post + (seq![44u8] + after));
            lemma_seg_split(data, e2, m.post, seq![44u8] + after);
            lemma_seg_split(data, q0, seq![44u8], after);
            lemma_seg_byte(data, q0, 44u8);
            lemma_skip_ws_seg(data, e2, m.post);
            assert(b == q0 + 1);
            assert(data.subrange(b, data.len() as int) =~= after);
            lemma_run_loop_render(fields, data, b, sv.0, sv.1, rest_ms, tail, rest);
        } else {
            // No comma: the last member. Whitespace runs to the brace.
            assert(rest_ms.len() == 0);
            assert(after =~= tail + (seq![125u8] + rest)) by {
                assert(render_members(rest_ms) =~= Seq::<u8>::empty());
                assert(render_members(rest_ms) + tail + seq![125u8] + rest =~= tail + (seq![125u8]
                    + rest));
            }
            assert(rest3 =~= (m.post + tail) + (seq![125u8] + rest)) by {
                assert(comma_text(m.comma) =~= Seq::<u8>::empty());
            }
            lemma_seg_split(data, e2, m.post + tail, seq![125u8] + rest);
            let e = e2 + m.post.len() + tail.len();
            lemma_seg_split(data, e, seq![125u8], rest);
            lemma_seg_byte(data, e, 125u8);
            assert(ws_only(m.post + tail));
            lemma_skip_ws_seg(data, e2, m.post + tail);
            let p6 = skip_ws_spec(data, e2);
            assert(p6 == e);
            assert(data[p6] == 125);
            assert(skip_ws_spec(data, p6) == p6) by {
                assert(!is_ws(data[p6]));
            }
            assert(run_loop(fields, data, p6, sv.0, sv.1) == (
                None::<RunError>,
                p6,
                sv.0,
                sv.1,
            ));
            assert(store_all(fields, rest_ms, sv.0, sv.1) == (sv.0, sv.1));
            assert(pos + render_members(ms).len() + tail.len() == e);
        }
    }
}

/// What the stored record holds after a whole member list: each field takes
/// the value of the member bearing its name, and its flag; fields no member
/// names keep their old value and flag.
pub proof fn lemma_store_all_lookup(
    fields: Seq<Seq<u8>>,
    ms: Seq<Member>,
    vals: Seq<Seq<u8>>,
    flags: Seq<bool>,
)
    requires
        vals.len() == fields.len(),
        flags.len() == fields.len(),
        distinct_keys(fields),
        distinct_keys(keys_of(ms)),
    ensures
        ({
            let sv = store_all(fields, ms, vals, flags);
            &&& sv.0.len() == fields.len()
            &&& sv.1.len() == fields.len()
            &&& forall|i: int|
                0 <= i < fields.len() ==> match member_with_key(ms, #[trigger] fields[i]) {
                    Some(j) => sv.0[i] == ms[j].value && sv.1[i] == true,
                    None => sv.0[i] == vals[i] && sv.1[i] == flags[i],
                }
        }),
    decreases ms.len(),
{
    if ms.len() > 0 {
        let m = ms[0];
        let rest = ms.drop_first();
        let sv1 = store_field(fields, m.key, m.value, vals, flags);
        lemma_first_match_from_props(fields, m.key, 0);
        assert(distinct_keys(keys_of(rest))) by {
            assert forall|i: int, j: int|
                0 <= i < j < keys_of(rest).len() implies keys_of(rest)[i] != keys_of(rest)[j] by {
                assert(rest[i] == ms[i + 1]);
                assert(rest[j] == ms[j + 1]);
                assert(keys_of(ms)[i + 1] != keys_of(ms)[j + 1]);
            }
        }
        assert(sv1.0.len() == fields.len() && sv1.1.len() == fields.len());
        lemma_store_all_lookup(fields, rest, sv1.0, sv1.1);
        let sv = store_all(fields, ms, vals, flags);
        assert(sv == store_all(fields, rest, sv1.0, sv1.1));
        assert forall|i: int|
            0 <= i < fields.len() implies match member_with_key(ms, #[trigger] fields[i]) {
            Some(j) => sv.0[i] == ms[j].value && sv.1[i] == true,
            None => sv.0[i] == vals[i] && sv.1[i] == flags[i],
        } by {
            lemma_member_with_key_props(rest, fields[i]);
            if fields[i] == m.key {
                let t = first_match(fields, m.key).unwrap();
                assert(fields[t] == m.key);
                assert(t == i);
                assert(member_with_key(rest, fields[i]) is None) by {
                    match member_with_key(rest, fields[i]) {
                        Some(j) => {
                            assert(rest[j].key == fields[i]);
                            assert(keys_of(ms)[j + 1] == keys_of(ms)[0]);
                        },
                        None => {},
                    }
                }
                assert(member_with_key(ms, fields[i]) == Some(0int));
                assert(sv.0[i] == sv1.0[i] && sv.1[i] == sv1.1[i]);
                assert(sv1.0[i] == m.value && sv1.1[i] == true);
            } else {
                assert(sv1.0[i] == vals[i] && sv1.1[i] == flags[i]) by {
                    match first_match(fields, m.key) {
                        Some(t) => {
                            assert(fields[t] == m.key);
                            assert(t != i);
                        },
                        None => {},
                    }
                }
                match member_with_key(rest, fields[i]) {
                    Some(j) => {
                        assert(member_with_key(ms, fields[i]) == Some(j + 1));
                        assert(ms[j + 1] == rest[j]);
                    },
                    None => {
                        assert(member_with_key(ms, fields[i]) is None);
                    },
                }
            }
        }
    }
}

/// A buffer whose first non-whitespace byte is not `{` — or that holds none —
/// fails with the expected-object error, the cursor advanced exactly past the
/// whitespace skipped and no further.
pub proof fn lemma_expected_object(fields: Seq<Seq<u8>>, data: Seq<u8>, pos: int)
    requires
        0 <= pos <= data.len(),
        skip_ws_spec(data, pos) < data.len() ==> data[skip_ws_spec(data, pos)] != 123,
    ensures
        run_spec(fields, data, pos) == (
            Err::<Seq<Seq<u8>>, RunError>(RunError::ExpectedObject),
            skip_ws_spec(data, pos),
        ),
        pos <= skip_ws_spec(data, pos) <= data.len(),
        forall|k: int| pos <= k < skip_ws_spec(data, pos) ==> is_ws(data[k]),
        skip_ws_spec(data, pos) < data.len() ==> !is_ws(data[skip_ws_spec(data, pos)]),
{
    lemma_skip_ws_props(data, pos);
}

/// Any rendered object that carries every schema key — in any member order,
/// with any whitespace interleaving, extra members tolerated and discarded —
/// parses successfully, every field set to the value of the member bearing
/// its name, the cursor at the end of the object.
#[verifier::rlimit(100)]
pub proof fn lemma_complete_object_parses(
    fields: Seq<Seq<u8>>,
    ms: Seq<Member>,
    lead: Seq<u8>,
    tail: Seq<u8>,
    data: Seq<u8>,
)
    requires
        data == lead + seq![123u8] + render_members(ms) + tail + seq![125u8],
        ws_only(lead),
        ws_only(tail),
        wf_members(ms),
        distinct_keys(fields),
        distinct_keys(keys_of(ms)),
        forall|i: int| 0 <= i < fields.len() ==> keys_of(ms).contains(#[trigger] fields[i]),
    ensures
        ({
            let (res, p) = run_spec(fields, data, 0);
            &&& res is Ok
            &&& p == data.len()
            &&& res.unwrap().len() == fields.len()
            &&& forall|i: int|
                0 <= i < fields.len() ==> (member_with_key(ms, #[trigger] fields[i]) matches Some(
                    j,
                ) && res.unwrap()[i] == ms[j].value)
        }),
{
    let n = fields.len();
    let body = render_members(ms) + tail + seq![125u8];
    let o = lead.len() as int;
    assert(seg_at(data, 0, data)) by {
        assert(data.subrange(0, data.len() as int) =~= data);
    }
    assert(data =~= lead + (seq![123u8] + body));
    lemma_seg_split(data, 0, lead, seq![123u8] + body);
    lemma_seg_split(data, o, seq![123u8], body);
    lemma_seg_byte(data, o, 123u8);
    lemma_skip_ws_seg(data, 0, lead);
    assert(data.subrange(o + 1, data.len() as int) =~= render_members(ms) + tail + seq![125u8]
        + Seq::<u8>::empty());
    lemma_run_loop_render(
        fields,
        data,
        o + 1,
        empty_vals(n),
        init_flags(n),
        ms,
        tail,
        Seq::<u8>::empty(),
    );
    let lr = run_loop(fields, data, o + 1, empty_vals(n), init_flags(n));
    let sv = store_all(fields, ms, empty_vals(n), init_flags(n));
    lemma_store_all_lookup(fields, ms, empty_vals(n), init_flags(n));
    assert forall|i: int|
        0 <= i < fields.len() implies member_with_key(ms, #[trigger] fields[i]) matches Some(j)
        && sv.0[i] == ms[j].value && sv.1[i] == true by {
        lemma_member_with_key_props(ms, fields[i]);
        let w = choose|j: int| 0 <= j < keys_of(ms).len() && keys_of(ms)[j] == fields[i];
        assert(ms[w].key == fields[i]);
        assert(member_with_key(ms, fields[i]) is Some);
    }
    assert forall|i: int| 0 <= i < sv.1.len() implies sv.1[i] by {
        assert(member_with_key(ms, #[trigger] fields[i]) matches Some(j) && sv.0[i] == ms[j].value
            && sv.1[i] == true);
    }
    assert(all_set(sv.1));
    assert(lr.1 == o + 1 + render_members(ms).len() + tail.len());
    assert(data[lr.1] == 125) by {
        assert(seg_at(data, o + 1, body));
        assert(body =~= (render_members(ms) + tail) + seq![125u8]);
        lemma_seg_split(data, o + 1, render_members(ms) + tail, seq![125u8]);
        lemma_seg_byte(data, o + 1 + render_members(ms).len() + tail.len(), 125u8);
    }
    assert(lr.1 + 1 == data.len());
}

/// Omitting at least one declared field from the object yields the
/// missing-required-field failure, never a populated record.
#[verifier::rlimit(100)]
pub proof fn lemma_missing_field_rejected(
    fields: Seq<Seq<u8>>,
    ms: Seq<Member>,
    lead: Seq<u8>,
    tail: Seq<u8>,
    data: Seq<u8>,
    i: int,
)
    requires
        data == lead + seq![123u8] + render_members(ms) + tail + seq![125u8],
        ws_only(lead),
        ws_only(tail),
        wf_members(ms),
        distinct_keys(fields),
        distinct_keys(keys_of(ms)),
        0 <= i < fields.len(),
        !keys_of(ms).contains(fields[i]),
    ensures
        run_spec(fields, data, 0).0 == Err::<Seq<Seq<u8>>, RunError>(
            RunError::MissingRequiredField,
        ),
{
    let n = fields.len();
    let body = render_members(ms) + tail + seq![125u8];
    let o = lead.len() as int;
    assert(seg_at(data, 0, data)) by {
        assert(data.subrange(0, data.len() as int) =~= data);
    }
    assert(data =~= lead + (seq![123u8] + body));
    lemma_seg_split(data, 0, lead, seq![123u8] + body);
    lemma_seg_split(data, o, seq![123u8], body);
    lemma_seg_byte(data, o, 123u8);
    lemma_skip_ws_seg(data, 0, lead);
    assert(data.subrange(o + 1, data.len() as int) =~= render_members(ms) + tail + seq![125u8]
        + Seq::<u8>::empty());
    lemma_run_loop_render(
        fields,
        data,
        o + 1,
        empty_vals(n),
        init_flags(n),
        ms,
        tail,
        Seq::<u8>::empty(),
    );
    let sv = store_all(fields, ms, empty_vals(n), init_flags(n));
    lemma_store_all_lookup(fields, ms, empty_vals(n), init_flags(n));
    lemma_member_with_key_props(ms, fields[i]);
    assert(member_with_key(ms, fields[i]) is None) by {
        match member_with_key(ms, fields[i]) {
            Some(j) => {
                assert(keys_of(ms)[j] == fields[i]);
            },
            None => {},
        }
    }
    assert(sv.1[i] == init_flags(n)[i]);
    assert(!all_set(sv.1));
}

/// An empty schema accepts the bare empty object: its required-field check
/// is vacuously satisfied.
pub proof fn lemma_empty_schema_accepts_empty(fields: Seq<Seq<u8>>, data: Seq<u8>)
    requires
        fields.len() == 0,
        data == seq![123u8, 125u8],
    ensures
        ({
            let (res, p) = run_spec(fields, data, 0);
            &&& res is Ok
            &&& res.unwrap().len() == 0
            &&& p == 2
        }),
{
    assert(data =~= Seq::<u8>::empty() + seq![123u8] + render_members(Seq::<Member>::empty())
        + Seq::<u8>::empty() + seq![125u8]);
    lemma_complete_object_parses(
        fields,
        Seq::<Member>::empty(),
        Seq::<u8>::empty(),
        Seq::<u8>::empty(),
        data,
    );
}

/// One encoded member: the key and the value, quoted, around a colon.
pub open spec fn encode_member(f: Seq<u8>, v: Seq<u8>) -> Seq<u8> {
    seq![34u8] + f + seq![34u8, 58u8, 34u8] + v + seq![34u8]
}

/// The encoded members from index `i` on, comma-separated.
pub open spec fn encode_members_from(fields: Seq<Seq<u8>>, vals: Seq<Seq<u8>>, i: int) -> Seq<u8>
    decreases fields.len() - i,
{
    if i < 0 || i >= fields.len() {
        Seq::<u8>::empty()
    } else {
        encode_member(fields[i], vals[i]) + comma_text(i + 1 < fields.len())
            + encode_members_from(fields, vals, i + 1)
    }
}

/// A record's fields as a JSON object with exactly the schema's keys, in
/// schema order, no whitespace.
pub open spec fn encode_spec(fields: Seq<Seq<u8>>, vals: Seq<Seq<u8>>) -> Seq<u8> {
    seq![123u8] + encode_members_from(fields, vals, 0) + seq![125u8]
}

/// The member list the encoding renders: no whitespace, a comma after every
/// member but the last.
pub open spec fn canonical_members(fields: Seq<Seq<u8>>, vals: Seq<Seq<u8>>) -> Seq<Member> {
    Seq::new(
        fields.len(),
        |i: int|
            Member {
                lead: Seq::<u8>::empty(),
                key: fields[i],
                mid: Seq::<u8>::empty(),
                pre_value: Seq::<u8>::empty(),
                value: vals[i],
                post: Seq::<u8>::empty(),
                comma: i + 1 < fields.len(),
            },
    )
}

pub proof fn lemma_canonical_render(fields: Seq<Seq<u8>>, vals: Seq<Seq<u8>>, i: int)
    requires
        fields.len() == vals.len(),
        0 <= i <= fields.len(),
    ensures
        render_members(canonical_members(fields, vals).skip(i)) == encode_members_from(
            fields,
            vals,
            i,
        ),
    decreases fields.len() - i,
{
    let cms = canonical_members(fields, vals);
    if i >= fields.len() {
        assert(cms.skip(i) =~= Seq::<Member>::empty());
    } else {
        lemma_canonical_render(fields, vals, i + 1);
        assert(cms.skip(i).drop_first() =~= cms.skip(i + 1));
        assert(cms.skip(i)[0] == cms[i]);
        assert(render_member(cms[i]) =~= encode_member(fields[i], vals[i]) + comma_text(
            i + 1 < fields.len(),
        ));
        assert(render_members(cms.skip(i)) =~= encode_members_from(fields, vals, i));
    }
}

/// Round trip: encoding a record's fields as a JSON object with exactly the
/// schema's keys and running the routine on that text reproduces the field
/// values exactly.
#[verifier::rlimit(100)]
pub proof fn lemma_round_trip(fields: Seq<Seq<u8>>, vals: Seq<Seq<u8>>)
    requires
        fields.len() == vals.len(),
        distinct_keys(fields),
        forall|i: int| 0 <= i < fields.len() ==> quote_free(#[trigger] fields[i]),
        forall|i: int| 0 <= i < vals.len() ==> quote_free(#[trigger] vals[i]),
    ensures
        run_spec(fields, encode_spec(fields, vals), 0) == (
            Ok::<Seq<Seq<u8>>, RunError>(vals),
            encode_spec(fields, vals).len() as int,
        ),
{
    let cms = canonical_members(fields, vals);
    let data = encode_spec(fields, vals);
    lemma_canonical_render(fields, vals, 0);
    assert(cms.skip(0) =~= cms);
    assert(data =~= Seq::<u8>::empty() + seq![123u8] + render_members(cms) + Seq::<u8>::empty()
        + seq![125u8]);
    assert(wf_members(cms));
    assert(distinct_keys(keys_of(cms))) by {
        assert forall|i: int, j: int|
            0 <= i < j < keys_of(cms).len() implies keys_of(cms)[i] != keys_of(cms)[j] by {
            assert(keys_of(cms)[i] == fields[i]);
            assert(keys_of(cms)[j] == fields[j]);
        }
    }
    assert forall|i: int| 0 <= i < fields.len() implies keys_of(cms).contains(
        #[trigger] fields[i],
    ) by {
        assert(keys_of(cms)[i] == fields[i]);
    }
    lemma_complete_object_parses(fields, cms, Seq::<u8>::empty(), Seq::<u8>::empty(), data);
    let res = run_spec(fields, data, 0).0;
    assert forall|i: int| 0 <= i < fields.len() implies res.unwrap()[i] == vals[i] by {
        lemma_member_with_key_props(cms, fields[i]);
        match member_with_key(cms, fields[i]) {
            Some(j) => {
                assert(cms[j].key == fields[j]);
                assert(j == i);
            },
            None => {},
        }
    }
    assert(res.unwrap() =~= vals);
}

/// Appends one buffer to another.
#[verifier::loop_isolation(false)]
fn push_bytes(out: &mut Vec<u8>, src: &Vec<u8>)
    ensures
        final(out)@ == old(out)@ + src@,
{
    let mut k: usize = 0;
    while k < src.len()
        invariant
            k <= src@.len(),
            out@ == old(out)@ + src@.take(k as int),
        decreases src@.len() - k,
    {
        out.push(src[k]);
        proof {
            assert(old(out)@ + src@.take(k + 1) =~= (old(out)@ + src@.take(k as int)).push(
                src@[k as int],
            ));
        }
        k = k + 1;
    }
    proof {
        assert(src@.take(src@.len() as int) =~= src@);
    }
}

/// Encodes a record as the JSON object the schema's routine reads back:
/// exactly the schema's keys, in order, each value a string, no whitespace.
#[verifier::loop_isolation(false)]
pub fn encode_object(fields: &Vec<Vec<u8>>, vals: &Vec<Vec<u8>>) -> (r: Vec<u8>)
    requires
        fields@.len() == vals@.len(),
    ensures
        r@ == encode_spec(views_of(fields@), views_of(vals@)),
{
    let ghost fs = views_of(fields@);
    let ghost vs = views_of(vals@);
    let mut out: Vec<u8> = Vec::new();
    out.push(123);
    let mut i: usize = 0;
    while i < fields.len()
        invariant
            i <= fields@.len(),
            out@ + encode_members_from(fs, vs, i as int) + seq![125u8] == encode_spec(fs, vs),
        decreases fields@.len() - i,
    {
        let ghost before = out@;
        out.push(34);
        push_bytes(&mut out, &fields[i]);
        out.push(34);
        out.push(58);
        out.push(34);
        push_bytes(&mut out, &vals[i]);
        out.push(34);
        if i + 1 < fields.len() {
            out.push(44);
        }
        proof {
            assert(out@ =~= before + encode_member(fs[i as int], vs[i as int]) + comma_text(
                i + 1 < fields@.len(),
            ));
            assert(out@ + encode_members_from(fs, vs, i + 1) + seq![125u8] =~= before
                + encode_members_from(fs, vs, i as int) + seq![125u8]);
        }
        i = i + 1;
    }
    out.push(125);
    proof {
        assert(encode_members_from(fs, vs, fields@.len() as int) =~= Seq::<u8>::empty());
        assert(out@ =~= encode_spec(fs, vs));
    }
    out
}

} // verus!
