use crate::error::PcdError;
use vstd::prelude::*;
use vstd::slice::slice_subrange;

verus! {

/// The schema declared by a file's header.
#[derive(Debug)]
pub struct PointCloudHeader {
    pub data_format: String,
    pub num_points: usize,
    pub field_names: Vec<String>,
    pub size_list: Vec<usize>,
    pub type_list: Vec<String>,
}

/// The mathematical content of a [`PointCloudHeader`].
pub struct HeaderView {
    pub data_format: Seq<char>,
    pub num_points: usize,
    pub field_names: Seq<Seq<char>>,
    pub size_list: Seq<usize>,
    pub type_list: Seq<Seq<char>>,
}

/// The character sequences of a list of strings.
pub open spec fn string_views(v: Seq<String>) -> Seq<Seq<char>> {
    v.map_values(|s: String| s@)
}

impl View for PointCloudHeader {
    type V = HeaderView;

    open spec fn view(&self) -> HeaderView {
        HeaderView {
            data_format: self.data_format@,
            num_points: self.num_points,
            field_names: string_views(self.field_names@),
            size_list: self.size_list@,
            type_list: string_views(self.type_list@),
        }
    }
}

/// The sum of all widths in `s`.
pub open spec fn sum_sizes(s: Seq<usize>) -> nat
    decreases s.len(),
{
    if s.len() == 0 {
        0
    } else {
        sum_sizes(s.drop_last()) + s.last() as nat
    }
}

/// A prefix of a list of widths never sums to more than a longer prefix.
pub proof fn lemma_prefix_sum_le(s: Seq<usize>, i: int, j: int)
    requires
        0 <= i <= j <= s.len(),
    ensures
        sum_sizes(s.take(i)) <= sum_sizes(s.take(j)),
    decreases j - i,
{
    if i < j {
        assert(s.take(j).drop_last() =~= s.take(j - 1));
        lemma_prefix_sum_le(s, i, j - 1);
    }
}

/// Extending a prefix by one width adds that width, and the longer prefix
/// still sums to no more than the whole list.
pub proof fn lemma_prefix_sum_step(s: Seq<usize>, i: int)
    requires
        0 <= i < s.len(),
    ensures
        sum_sizes(s.take(i + 1)) == sum_sizes(s.take(i)) + s[i],
        sum_sizes(s.take(i + 1)) <= sum_sizes(s),
{
    assert(s.take(i + 1).drop_last() =~= s.take(i));
    lemma_prefix_sum_le(s, i + 1, s.len() as int);
    assert(s.take(s.len() as int) =~= s);
}

/// The three per-field lists have one entry per field, and a whole record
/// is no wider than `usize` can count.
pub open spec fn schema_consistent(h: HeaderView) -> bool {
    &&& h.field_names.len() == h.size_list.len()
    &&& h.size_list.len() == h.type_list.len()
    &&& sum_sizes(h.size_list) <= usize::MAX
}

/// The format tag that this reader accepts.
pub open spec fn supported_format() -> Seq<char> {
    "binary_compressed"@
}

/// Bytes that separate tokens within a header line.
pub open spec fn is_space(c: u8) -> bool {
    c == 32 || c == 9 || c == 13
}

/// Every byte of `b` is an ASCII character.
pub open spec fn is_ascii_bytes(b: Seq<u8>) -> bool {
    forall|i: int| 0 <= i < b.len() ==> b[i] < 128
}

/// The characters that the ASCII bytes `b` stand for.
pub open spec fn ascii_chars(b: Seq<u8>) -> Seq<char> {
    b.map_values(|c: u8| c as char)
}

/// The maximal runs of non-whitespace bytes of `line`, in order.
pub open spec fn split_ws(line: Seq<u8>) -> Seq<Seq<u8>>
    decreases line.len(),
{
    if line.len() == 0 {
        seq![]
    } else {
        let prev = split_ws(line.drop_last());
        let c = line.last();
        if is_space(c) {
            prev
        } else if line.len() >= 2 && !is_space(line[line.len() - 2]) {
            prev.update(prev.len() - 1, prev.last().push(c))
        } else {
            prev.push(seq![c])
        }
    }
}

/// An ASCII decimal digit.
pub open spec fn is_digit(c: u8) -> bool {
    48 <= c <= 57
}

/// The value of a string of decimal digits.
pub open spec fn decimal_value(t: Seq<u8>) -> nat
    decreases t.len(),
{
    if t.len() == 0 {
        0
    } else {
        10 * decimal_value(t.drop_last()) + (t.last() - 48) as nat
    }
}

/// A non-empty run of decimal digits whose value fits in `usize`.
pub open spec fn parse_usize_spec(t: Seq<u8>) -> Option<usize> {
    if t.len() > 0 && (forall|i: int| 0 <= i < t.len() ==> is_digit(#[trigger] t[i]))
        && decimal_value(t) <= usize::MAX {
        Some(decimal_value(t) as usize)
    } else {
        None
    }
}

/// The byte sequences of a list of tokens.
pub open spec fn token_views(v: Seq<Vec<u8>>) -> Seq<Seq<u8>> {
    v.map_values(|t: Vec<u8>| t@)
}

/// Relies on `String::from_utf8_lossy`: ASCII bytes are valid UTF-8 and
/// become one character each.
#[verifier::external_body]
fn ascii_string(b: &[u8]) -> (r: String)
    ensures
        is_ascii_bytes(b@) ==> r@ == ascii_chars(b@),
{
    String::from_utf8_lossy(b).into_owned()
}

/// Whether `s` spells exactly `w`.
pub(crate) fn is_word(s: &String, w: &str) -> (r: bool)
    ensures
        r == (s@ == w@),
{
    let o = w.to_owned();
    s.eq(&o)
}

/// Splits `line` into its whitespace-separated tokens.
pub fn split_tokens(line: &[u8]) -> (r: Vec<Vec<u8>>)
    ensures
        token_views(r@) == split_ws(line@),
{
    let mut toks: Vec<Vec<u8>> = Vec::new();
    let mut cur: Vec<u8> = Vec::new();
    let mut i: usize = 0;
    while i < line.len()
        invariant
            i <= line@.len(),
            cur@.len() > 0 ==> split_ws(line@.take(i as int)) == token_views(toks@).push(cur@)
                && i > 0 && !is_space(line@[i - 1]),
            cur@.len() == 0 ==> split_ws(line@.take(i as int)) == token_views(toks@) && (i == 0
                || is_space(line@[i - 1])),
        decreases line@.len() - i,
    {
        let c = line[i];
        let ghost prev = line@.take(i as int);
        assert(line@.take(i + 1).drop_last() =~= prev);
        if c == 32 || c == 9 || c == 13 {
            if cur.len() > 0 {
                let ghost old_toks = toks@;
                toks.push(cur);
                assert(token_views(toks@) =~= token_views(old_toks).push(cur@));
                cur = Vec::new();
            }
        } else {
            if cur.len() > 0 {
                let ghost full = split_ws(prev);
                assert(full.last() == cur@);
                cur.push(c);
                assert(split_ws(line@.take(i + 1)) =~= token_views(toks@).push(cur@));
            } else {
                cur.push(c);
                assert(cur@ =~= seq![c]);
            }
        }
        i = i + 1;
    }
    assert(line@.take(i as int) =~= line@);
    if cur.len() > 0 {
        let ghost old_toks = toks@;
        toks.push(cur);
        assert(token_views(toks@) =~= token_views(old_toks).push(cur@));
    }
    toks
}
/// Appending digits never makes a decimal value smaller.
proof fn lemma_decimal_prefix_le(t: Seq<u8>, i: int, j: int)
    requires
        0 <= i <= j <= t.len(),
        forall|k: int| 0 <= k < t.len() ==> is_digit(#[trigger] t[k]),
    ensures
        decimal_value(t.take(i)) <= decimal_value(t.take(j)),
    decreases j - i,
{
    if i < j {
        assert(t.take(j).drop_last() =~= t.take(j - 1));
        lemma_decimal_prefix_le(t, i, j - 1);
    }
}

/// Reads a token as an unsigned decimal integer.
pub fn parse_usize(t: &[u8]) -> (r: Option<usize>)
    ensures
        r == parse_usize_spec(t@),
{
    if t.len() == 0 {
        return None;
    }
    let mut i: usize = 0;
    while i < t.len()
        invariant
            i <= t@.len(),
            forall|k: int| 0 <= k < i ==> is_digit(#[trigger] t@[k]),
        decreases t@.len() - i,
    {
        if t[i] < 48 || t[i] > 57 {
            return None;
        }
        i = i + 1;
    }
    let mut v: usize = 0;
    let mut j: usize = 0;
    while j < t.len()
        invariant
            j <= t@.len(),
            forall|k: int| 0 <= k < t@.len() ==> is_digit(#[trigger] t@[k]),
            v as nat == decimal_value(t@.take(j as int)),
        decreases t@.len() - j,
    {
        assert(t@.take(j + 1).drop_last() =~= t@.take(j as int));
        let d = (t[j] - 48) as usize;
        match v.checked_mul(10) {
            Some(m) => match m.checked_add(d) {
                Some(n) => {
                    v = n;
                },
                None => {
                    proof {
                        lemma_decimal_prefix_le(t@, j + 1, t@.len() as int);
                        assert(t@.take(t@.len() as int) =~= t@);
                    }
                    return None;
                },
            },
            None => {
                proof {
                    lemma_decimal_prefix_le(t@, j + 1, t@.len() as int);
                    assert(t@.take(t@.len() as int) =~= t@);
                }
                return None;
            },
        }
        j = j + 1;
    }
    assert(t@.take(j as int) =~= t@);
    Some(v)
}

/// The position of the first line feed at or after `pos`.
pub open spec fn find_newline(b: Seq<u8>, pos: int) -> Option<int>
    decreases b.len() - pos,
{
    if pos < 0 || pos >= b.len() {
        None
    } else if b[pos] == 10 {
        Some(pos)
    } else {
        find_newline(b, pos + 1)
    }
}

/// What one header line does to the schema read so far.
pub enum LineStep {
    Next(HeaderView),
    Finish(HeaderView),
    Fail(PcdError),
}

/// Directives that are read and have no effect on the schema.
pub open spec fn is_ignored_directive(kw: Seq<char>) -> bool {
    kw == "VERSION"@ || kw == "COUNT"@ || kw == "WIDTH"@ || kw == "HEIGHT"@ || kw
        == "VIEWPOINT"@
}

/// Every token is ASCII.
pub open spec fn all_ascii(toks: Seq<Seq<u8>>) -> bool {
    forall|i: int| 0 <= i < toks.len() ==> is_ascii_bytes(#[trigger] toks[i])
}

/// Every token is an unsigned decimal integer that fits in `usize`.
pub open spec fn all_usize(toks: Seq<Seq<u8>>) -> bool {
    forall|i: int| 0 <= i < toks.len() ==> (#[trigger] parse_usize_spec(toks[i])) is Some
}

/// The effect of a header line with tokens `toks` on the schema `h`.
pub open spec fn line_step(h: HeaderView, toks: Seq<Seq<u8>>) -> LineStep {
    let rest = toks.drop_first();
    if toks.len() == 0 {
        LineStep::Fail(PcdError::HeaderParseFailure)
    } else if toks[0].len() > 0 && toks[0][0] == 35 {
        LineStep::Next(h)
    } else if !all_ascii(toks) {
        LineStep::Fail(PcdError::HeaderParseFailure)
    } else if is_ignored_directive(ascii_chars(toks[0])) {
        LineStep::Next(h)
    } else if ascii_chars(toks[0]) == "FIELDS"@ {
        LineStep::Next(HeaderView { field_names: rest.map_values(|t| ascii_chars(t)), ..h })
    } else if ascii_chars(toks[0]) == "TYPE"@ {
        LineStep::Next(HeaderView { type_list: rest.map_values(|t| ascii_chars(t)), ..h })
    } else if ascii_chars(toks[0]) == "SIZE"@ {
        if all_usize(rest) {
            LineStep::Next(
                HeaderView { size_list: rest.map_values(|t| parse_usize_spec(t)->0), ..h },
            )
        } else {
            LineStep::Fail(PcdError::HeaderParseFailure)
        }
    } else if ascii_chars(toks[0]) == "POINTS"@ {
        if rest.len() == 1 && parse_usize_spec(rest[0]) is Some {
            LineStep::Next(HeaderView { num_points: parse_usize_spec(rest[0])->0, ..h })
        } else {
            LineStep::Fail(PcdError::HeaderParseFailure)
        }
    } else if ascii_chars(toks[0]) == "DATA"@ {
        if rest.len() != 1 {
            LineStep::Fail(PcdError::HeaderParseFailure)
        } else if ascii_chars(rest[0]) != supported_format() {
            LineStep::Fail(PcdError::UnsupportedFormat)
        } else if !schema_consistent(h) {
            LineStep::Fail(PcdError::HeaderParseFailure)
        } else {
            LineStep::Finish(HeaderView { data_format: supported_format(), ..h })
        }
    } else {
        LineStep::Fail(PcdError::HeaderParseFailure)
    }
}

/// Reads header lines from `pos` on, starting from schema `h`; on success
/// gives the schema and the position just past the `DATA` line.
pub open spec fn scan_header(b: Seq<u8>, pos: int, h: HeaderView) -> Result<(HeaderView, int), PcdError>
    decreases b.len() - pos,
{
    match find_newline(b, pos) {
        None => Err(PcdError::IoFailure),
        Some(nl) => if nl < pos || nl >= b.len() {
            Err(PcdError::IoFailure)
        } else {
            match line_step(h, split_ws(b.subrange(pos, nl))) {
                LineStep::Next(h2) => scan_header(b, nl + 1, h2),
                LineStep::Finish(h2) => Ok((h2, nl + 1)),
                LineStep::Fail(e) => Err(e),
            }
        },
    }
}

/// The schema before any header line is read.
pub open spec fn empty_header() -> HeaderView {
    HeaderView {
        data_format: seq![],
        num_points: 0,
        field_names: seq![],
        size_list: seq![],
        type_list: seq![],
    }
}

/// The schema that the header at the start of `b` declares, and where the
/// binary section begins.
pub open spec fn parse_header_spec(b: Seq<u8>) -> Result<(HeaderView, int), PcdError> {
    scan_header(b, 0, empty_header())
}
/// Whether every byte of `t` is ASCII.
fn is_ascii_token(t: &Vec<u8>) -> (r: bool)
    ensures
        r == is_ascii_bytes(t@),
{
    let mut i: usize = 0;
    while i < t.len()
        invariant
            i <= t@.len(),
            forall|k: int| 0 <= k < i ==> t@[k] < 128,
        decreases t@.len() - i,
    {
        if t[i] >= 128 {
            return false;
        }
        i = i + 1;
    }
    true
}

/// Whether every token is ASCII.
fn tokens_ascii(toks: &Vec<Vec<u8>>) -> (r: bool)
    ensures
        r == all_ascii(token_views(toks@)),
{
    let mut i: usize = 0;
    while i < toks.len()
        invariant
            i <= toks@.len(),
            forall|k: int| 0 <= k < i ==> is_ascii_bytes(#[trigger] token_views(toks@)[k]),
        decreases toks@.len() - i,
    {
        assert(token_views(toks@)[i as int] == toks@[i as int]@);
        if !is_ascii_token(&toks[i]) {
            return false;
        }
        i = i + 1;
    }
    true
}

/// The tokens after the first, as strings.
fn strings_after_first(toks: &Vec<Vec<u8>>) -> (r: Vec<String>)
    requires
        toks@.len() > 0,
        all_ascii(token_views(toks@)),
    ensures
        string_views(r@) == token_views(toks@).drop_first().map_values(|t| ascii_chars(t)),
{
    let mut out: Vec<String> = Vec::new();
    let mut i: usize = 1;
    while i < toks.len()
        invariant
            1 <= i <= toks@.len(),
            all_ascii(token_views(toks@)),
            string_views(out@) == token_views(toks@).subrange(1, i as int).map_values(
                |t| ascii_chars(t),
            ),
        decreases toks@.len() - i,
    {
        assert(is_ascii_bytes(token_views(toks@)[i as int]));
        let s = ascii_string(toks[i].as_slice());
        let ghost old_out = out@;
        out.push(s);
        assert(string_views(out@) =~= token_views(toks@).subrange(1, i + 1).map_values(
            |t| ascii_chars(t),
        )) by {
            assert(string_views(out@) =~= string_views(old_out).push(s@));
        }
        i = i + 1;
    }
    assert(token_views(toks@).subrange(1, i as int) =~= token_views(toks@).drop_first());
    out
}

/// The tokens after the first, as unsigned integers, or `None` where one of
/// them is not one.
fn sizes_after_first(toks: &Vec<Vec<u8>>) -> (r: Option<Vec<usize>>)
    requires
        toks@.len() > 0,
    ensures
        r is Some <==> all_usize(token_views(toks@).drop_first()),
        r is Some ==> r->0@ == token_views(toks@).drop_first().map_values(
            |t| parse_usize_spec(t)->0,
        ),
{
    let ghost rest = token_views(toks@).drop_first();
    let mut out: Vec<usize> = Vec::new();
    let mut i: usize = 1;
    while i < toks.len()
        invariant
            1 <= i <= toks@.len(),
            rest == token_views(toks@).drop_first(),
            forall|k: int| 0 <= k < i - 1 ==> (#[trigger] parse_usize_spec(rest[k])) is Some,
            out@ == rest.take(i - 1).map_values(|t| parse_usize_spec(t)->0),
        decreases toks@.len() - i,
    {
        assert(rest[i - 1] == toks@[i as int]@);
        match parse_usize(toks[i].as_slice()) {
            Some(v) => {
                out.push(v);
                assert(out@ =~= rest.take(i as int).map_values(|t| parse_usize_spec(t)->0));
            },
            None => {
                return None;
            },
        }
        i = i + 1;
    }
    assert(rest.take(i - 1) =~= rest);
    Some(out)
}

/// Whether the widths in `s` sum to at most `usize::MAX`.
pub(crate) fn sum_fits(s: &Vec<usize>) -> (r: bool)
    ensures
        r == (sum_sizes(s@) <= usize::MAX),
{
    let mut acc: usize = 0;
    let mut i: usize = 0;
    while i < s.len()
        invariant
            i <= s@.len(),
            acc as nat == sum_sizes(s@.take(i as int)),
        decreases s@.len() - i,
    {
        proof {
            lemma_prefix_sum_step(s@, i as int);
        }
        match acc.checked_add(s[i]) {
            Some(n) => {
                acc = n;
            },
            None => {
                return false;
            },
        }
        i = i + 1;
    }
    assert(s@.take(i as int) =~= s@);
    true
}

/// Applies one header line, given as its tokens, to the schema read so far;
/// `Ok(true)` once the `DATA` line has been accepted.
fn apply_line(h: &mut PointCloudHeader, toks: &Vec<Vec<u8>>) -> (r: Result<bool, PcdError>)
    ensures
        match line_step(old(h)@, token_views(toks@)) {
            LineStep::Next(v) => r == Ok::<bool, PcdError>(false) && final(h)@ == v,
            LineStep::Finish(v) => r == Ok::<bool, PcdError>(true) && final(h)@ == v,
            LineStep::Fail(e) => r == Err::<bool, PcdError>(e),
        },
{
    let ghost tv = token_views(toks@);
    if toks.len() == 0 {
        return Err(PcdError::HeaderParseFailure);
    }
    assert(tv[0] == toks@[0]@);
    let first = &toks[0];
    if first.len() > 0 && first[0] == 35 {
        return Ok(false);
    }
    if !tokens_ascii(toks) {
        return Err(PcdError::HeaderParseFailure);
    }
    assert(is_ascii_bytes(tv[0]));
    let kw = ascii_string(first.as_slice());
    if is_word(&kw, "VERSION") || is_word(&kw, "COUNT") || is_word(&kw, "WIDTH") || is_word(
        &kw,
        "HEIGHT",
    ) || is_word(&kw, "VIEWPOINT") {
        return Ok(false);
    }
    if is_word(&kw, "FIELDS") {
        h.field_names = strings_after_first(toks);
        return Ok(false);
    }
    if is_word(&kw, "TYPE") {
        h.type_list = strings_after_first(toks);
        return Ok(false);
    }
    if is_word(&kw, "SIZE") {
        match sizes_after_first(toks) {
            Some(s) => {
                h.size_list = s;
                return Ok(false);
            },
            None => {
                return Err(PcdError::HeaderParseFailure);
            },
        }
    }
    if is_word(&kw, "POINTS") {
        if toks.len() != 2 {
            return Err(PcdError::HeaderParseFailure);
        }
        assert(tv.drop_first()[0] == toks@[1]@);
        match parse_usize(toks[1].as_slice()) {
            Some(n) => {
                h.num_points = n;
                return Ok(false);
            },
            None => {
                return Err(PcdError::HeaderParseFailure);
            },
        }
    }
    if is_word(&kw, "DATA") {
        if toks.len() != 2 {
            return Err(PcdError::HeaderParseFailure);
        }
        assert(tv.drop_first()[0] == toks@[1]@);
        assert(is_ascii_bytes(tv[1]));
        let tag = ascii_string(toks[1].as_slice());
        if !is_word(&tag, "binary_compressed") {
            return Err(PcdError::UnsupportedFormat);
        }
        if !(h.field_names.len() == h.size_list.len() && h.size_list.len() == h.type_list.len()
            && sum_fits(&h.size_list)) {
            return Err(PcdError::HeaderParseFailure);
        }
        h.data_format = tag;
        return Ok(true);
    }
    Err(PcdError::HeaderParseFailure)
}

/// Reads the header at the start of `b`. On success gives the schema and the
/// position of the first byte after the `DATA` line.
pub fn parse_header(b: &[u8]) -> (r: Result<(PointCloudHeader, usize), PcdError>)
    ensures
        match parse_header_spec(b@) {
            Ok((v, p)) => r is Ok && r->Ok_0.0@ == v && r->Ok_0.1 == p,
            Err(e) => r is Err && r->Err_0 == e,
        },
        r is Ok ==> r->Ok_0.1 <= b@.len(),
        r is Ok ==> schema_consistent(r->Ok_0.0@) && r->Ok_0.0@.data_format == supported_format(),
{
    let mut h = PointCloudHeader {
        data_format: String::new(),
        num_points: 0,
        field_names: Vec::new(),
        size_list: Vec::new(),
        type_list: Vec::new(),
    };
    assert(h@ == empty_header()) by {
        assert(string_views(h.field_names@) =~= seq![]);
        assert(string_views(h.type_list@) =~= seq![]);
        assert(h.size_list@ =~= seq![]);
    }
    let mut pos: usize = 0;
    loop
        invariant
            pos <= b@.len(),
            scan_header(b@, pos as int, h@) == parse_header_spec(b@),
        decreases b@.len() - pos,
    {
        let mut nl: usize = pos;
        while nl < b.len() && b[nl] != 10
            invariant
                pos <= nl <= b@.len(),
                find_newline(b@, pos as int) == find_newline(b@, nl as int),
            decreases b@.len() - nl,
        {
            nl = nl + 1;
        }
        if nl == b.len() {
            return Err(PcdError::IoFailure);
        }
        let toks = split_tokens(slice_subrange(b, pos, nl));
        match apply_line(&mut h, &toks) {
            Ok(true) => {
                return Ok((h, nl + 1));
            },
            Ok(false) => {
                pos = nl + 1;
            },
            Err(e) => {
                return Err(e);
            },
        }
    }
}
/// Whatever lines precede it, a schema that the header scan accepts has the
/// supported format tag, one width and one type tag per name, and ends
/// inside the input.
pub proof fn lemma_scan_accepts_only_consistent(b: Seq<u8>, pos: int, h: HeaderView)
    requires
        0 <= pos,
        scan_header(b, pos, h) is Ok,
    ensures
        schema_consistent(scan_header(b, pos, h)->Ok_0.0),
        scan_header(b, pos, h)->Ok_0.0.data_format == supported_format(),
        pos < scan_header(b, pos, h)->Ok_0.1 <= b.len(),
    decreases b.len() - pos,
{
    let nl = find_newline(b, pos)->0;
    if let LineStep::Next(h2) = line_step(h, split_ws(b.subrange(pos, nl))) {
        lemma_scan_accepts_only_consistent(b, nl + 1, h2);
    }
}

/// A `DATA` line whose one value is not the supported tag stops the header
/// with `UnsupportedFormat`, whatever was declared before it.
pub proof fn lemma_data_line_unsupported(h: HeaderView, toks: Seq<Seq<u8>>)
    requires
        toks.len() == 2,
        all_ascii(toks),
        ascii_chars(toks[0]) == "DATA"@,
        ascii_chars(toks[1]) != supported_format(),
    ensures
        line_step(h, toks) == LineStep::Fail(PcdError::UnsupportedFormat),
{
    reveal_strlit("DATA");
    reveal_strlit("VERSION");
    reveal_strlit("COUNT");
    reveal_strlit("WIDTH");
    reveal_strlit("HEIGHT");
    reveal_strlit("VIEWPOINT");
    reveal_strlit("FIELDS");
    reveal_strlit("TYPE");
    reveal_strlit("SIZE");
    reveal_strlit("POINTS");
    assert(ascii_chars(toks[0]).len() == 4);
    assert(ascii_chars(toks[0])[0] == 'D');
    assert(toks[0][0] != 35);
    assert(toks.drop_first()[0] == toks[1]);
}
/// The line feed that `find_newline` finds lies inside `b`, at or after `pos`.
pub proof fn lemma_find_newline_in_range(b: Seq<u8>, pos: int)
    requires
        0 <= pos,
        find_newline(b, pos) is Some,
    ensures
        pos <= find_newline(b, pos)->0 < b.len(),
        b[find_newline(b, pos)->0] == 10,
    decreases b.len() - pos,
{
    if pos < b.len() && b[pos] != 10 {
        lemma_find_newline_in_range(b, pos + 1);
    }
}

/// When the header scan comes to a `DATA` line whose one value is not the
/// supported tag, it stops with `UnsupportedFormat`, whatever came before.
pub proof fn lemma_scan_stops_at_unsupported_data(b: Seq<u8>, pos: int, h: HeaderView)
    requires
        0 <= pos,
        find_newline(b, pos) is Some,
        ({
            let toks = split_ws(b.subrange(pos, find_newline(b, pos)->0));
            &&& toks.len() == 2
            &&& all_ascii(toks)
            &&& ascii_chars(toks[0]) == "DATA"@
            &&& ascii_chars(toks[1]) != supported_format()
        }),
    ensures
        scan_header(b, pos, h) == Err::<(HeaderView, int), PcdError>(PcdError::UnsupportedFormat),
{
    lemma_find_newline_in_range(b, pos);
    let toks = split_ws(b.subrange(pos, find_newline(b, pos)->0));
    lemma_data_line_unsupported(h, toks);
}

} // verus!
