//! Character-level text handling: line splitting, decimal parsing, substring
//! search and case folding.

use vstd::prelude::*;

verus! {

broadcast use vstd::string::group_string_axioms;

// ---------------------------------------------------------------------------
// Characters and strings
// ---------------------------------------------------------------------------

/// The characters of `s`, in order.
pub fn chars_of(s: &str) -> (v: Vec<char>)
    ensures
        v@ == s@,
{
    let mut v: Vec<char> = Vec::new();
    for c in it: s.chars()
        invariant
            v@ == it.seq().take(it.index() as int),
    {
        v.push(c);
    }
    v
}

/// `String::push`: appends `c` at the end of `s`.
#[verifier::external_body]
fn push_char(s: &mut String, c: char)
    ensures
        final(s)@ == old(s)@.push(c),
{
    s.push(c);
}

/// A new string holding `cs[from..to]`.
pub fn string_from_chars(cs: &Vec<char>, from: usize, to: usize) -> (r: String)
    requires
        from <= to <= cs.len(),
    ensures
        r@ == cs@.subrange(from as int, to as int),
{
    let mut r = String::new();
    let mut i = from;
    while i < to
        invariant
            from <= i <= to <= cs.len(),
            r@ == cs@.subrange(from as int, i as int),
        decreases to - i,
    {
        push_char(&mut r, cs[i]);
        assert(cs@.subrange(from as int, i + 1) == cs@.subrange(from as int, i as int).push(cs@[i as int]));
        i = i + 1;
    }
    r
}

/// Whether two character vectors hold the same characters.
pub fn chars_equal(a: &Vec<char>, b: &Vec<char>) -> (r: bool)
    ensures
        r == (a@ == b@),
{
    if a.len() != b.len() {
        return false;
    }
    let mut i: usize = 0;
    while i < a.len()
        invariant
            a.len() == b.len(),
            i <= a.len(),
            forall|k: int| 0 <= k < i ==> a@[k] == b@[k],
        decreases a.len() - i,
    {
        if a[i] != b[i] {
            return false;
        }
        i = i + 1;
    }
    assert(a@ =~= b@);
    true
}

/// Whether two strings hold the same characters.
pub fn str_equal(a: &str, b: &str) -> (r: bool)
    ensures
        r == (a@ == b@),
{
    let ca = chars_of(a);
    let cb = chars_of(b);
    chars_equal(&ca, &cb)
}

// ---------------------------------------------------------------------------
// Lines
// ---------------------------------------------------------------------------

/// The pieces of `s` between its `'\n'` characters; always at least one piece.
pub open spec fn newline_pieces(s: Seq<char>) -> Seq<Seq<char>>
    decreases s.len(),
{
    if s.len() == 0 {
        seq![Seq::<char>::empty()]
    } else {
        let p = newline_pieces(s.drop_last());
        if s.last() == '\n' {
            p.push(Seq::<char>::empty())
        } else {
            p.update(p.len() - 1, p.last().push(s.last()))
        }
    }
}

/// `l` without one trailing carriage return.
pub open spec fn strip_cr(l: Seq<char>) -> Seq<char> {
    if l.len() > 0 && l.last() == '\r' {
        l.drop_last()
    } else {
        l
    }
}

/// The lines of `s`: pieces ended by `'\n'` lose a trailing `'\r'`, and a last
/// empty piece (after a final line ending, or of the empty text) is no line.
pub open spec fn lines_of(s: Seq<char>) -> Seq<Seq<char>> {
    let p = newline_pieces(s);
    let body = p.drop_last().map_values(|l: Seq<char>| strip_cr(l));
    if p.last().len() == 0 {
        body
    } else {
        body.push(p.last())
    }
}

/// The characters of each string of `v`.
pub open spec fn strings_view(v: Seq<String>) -> Seq<Seq<char>> {
    v.map_values(|s: String| s@)
}

pub proof fn lemma_newline_pieces_nonempty(s: Seq<char>)
    ensures
        newline_pieces(s).len() >= 1,
    decreases s.len(),
{
    if s.len() > 0 {
        lemma_newline_pieces_nonempty(s.drop_last());
    }
}

/// The lines of `text`, split as `str::lines` splits them.
pub fn split_lines(text: &str) -> (lines: Vec<String>)
    ensures
        strings_view(lines@) == lines_of(text@),
{
    let cs = chars_of(text);
    let mut done: Vec<String> = Vec::new();
    let mut start: usize = 0;
    let mut i: usize = 0;
    proof {
        lemma_newline_pieces_nonempty(cs@.take(0));
        assert(cs@.take(0) =~= Seq::<char>::empty());
    }
    while i < cs.len()
        invariant
            start <= i <= cs.len(),
            cs@ == text@,
            newline_pieces(cs@.take(i as int)).len() >= 1,
            strings_view(done@) == newline_pieces(cs@.take(i as int)).drop_last().map_values(
                |l: Seq<char>| strip_cr(l),
            ),
            newline_pieces(cs@.take(i as int)).last() == cs@.subrange(start as int, i as int),
        decreases cs.len() - i,
    {
        let ghost prev = cs@.take(i as int);
        let ghost p = newline_pieces(prev);
        assert(cs@.take(i + 1).drop_last() =~= prev);
        assert(cs@.take(i + 1).last() == cs@[i as int]);
        if cs[i] == '\n' {
            let end = if i > start && cs[i - 1] == '\r' { i - 1 } else { i };
            let line = string_from_chars(&cs, start, end);
            proof {
                let cur = cs@.subrange(start as int, i as int);
                if i > start && cs@[i - 1] == '\r' {
                    assert(cur.drop_last() =~= cs@.subrange(start as int, end as int));
                } else {
                    assert(cur =~= cs@.subrange(start as int, end as int));
                }
                assert(strip_cr(cur) == line@);
            }
            let ghost old_done = done@;
            done.push(line);
            start = i + 1;
            proof {
                let np = newline_pieces(cs@.take(i + 1));
                assert(np == p.push(Seq::<char>::empty()));
                assert(np.drop_last() =~= p);
                assert(p =~= p.drop_last().push(p.last()));
                assert(strings_view(done@) =~= strings_view(old_done).push(line@));
                assert(p.map_values(|l: Seq<char>| strip_cr(l)) =~= p.drop_last().map_values(
                    |l: Seq<char>| strip_cr(l),
                ).push(strip_cr(p.last())));
                assert(strings_view(done@) =~= np.drop_last().map_values(|l: Seq<char>| strip_cr(l)));
                assert(cs@.subrange(start as int, i + 1) =~= Seq::<char>::empty());
            }
        } else {
            proof {
                let np = newline_pieces(cs@.take(i + 1));
                assert(np == p.update(p.len() - 1, p.last().push(cs@[i as int])));
                assert(np.drop_last() =~= p.drop_last());
                assert(cs@.subrange(start as int, i + 1) =~= cs@.subrange(start as int, i as int).push(cs@[i as int]));
            }
        }
        i = i + 1;
    }
    assert(cs@.take(cs.len() as int) =~= cs@);
    if start < cs.len() {
        let last = string_from_chars(&cs, start, cs.len());
        done.push(last);
        assert(strings_view(done@) =~= lines_of(text@));
    } else {
        assert(strings_view(done@) =~= lines_of(text@));
    }
    done
}

/// Ending a non-empty text that does not already end a line with one more
/// line ending changes none of its lines.
pub proof fn lemma_final_line_ending(s: Seq<char>)
    requires
        s.len() > 0,
        s.last() != '\n',
        s.last() != '\r',
    ensures
        lines_of(s.push('\n')) == lines_of(s),
{
    let p = newline_pieces(s);
    lemma_newline_pieces_nonempty(s);
    assert(s.push('\n').drop_last() =~= s);
    let q = newline_pieces(s.push('\n'));
    assert(q == p.push(Seq::<char>::empty()));
    assert(q.drop_last() =~= p);
    // the last piece of `s` ends with the last character of `s`
    let ps = newline_pieces(s.drop_last());
    lemma_newline_pieces_nonempty(s.drop_last());
    assert(p.last() == ps.last().push(s.last()));
    assert(p.last().len() > 0);
    assert(strip_cr(p.last()) == p.last());
    assert(p =~= p.drop_last().push(p.last()));
    assert(lines_of(s.push('\n')) =~= lines_of(s));
}

// ---------------------------------------------------------------------------
// Decimal numbers
// ---------------------------------------------------------------------------

pub open spec fn is_digit(c: char) -> bool {
    '0' <= c <= '9'
}

pub open spec fn digit_value(c: char) -> int {
    (c as int) - ('0' as int)
}

pub open spec fn all_digits(s: Seq<char>) -> bool {
    forall|i: int| 0 <= i < s.len() ==> is_digit(#[trigger] s[i])
}

/// The value of a string of decimal digits.
pub open spec fn decimal_value(s: Seq<char>) -> int
    decreases s.len(),
{
    if s.len() == 0 {
        0
    } else {
        decimal_value(s.drop_last()) * 10 + digit_value(s.last())
    }
}

/// A non-empty run of digits whose value is at most `max`.
pub open spec fn digits_within(d: Seq<char>, max: int) -> bool {
    d.len() > 0 && all_digits(d) && decimal_value(d) <= max
}

/// What `str::parse::<i16>` gives for `s`: an optional `+` or `-`, then one or
/// more ASCII digits, with the value in range.
pub open spec fn parse_i16_spec(s: Seq<char>) -> Option<i16> {
    if s.len() > 0 && s[0] == '-' {
        if digits_within(s.skip(1), 32768) {
            Some((0 - decimal_value(s.skip(1))) as i16)
        } else {
            None
        }
    } else {
        let d = if s.len() > 0 && s[0] == '+' { s.skip(1) } else { s };
        if digits_within(d, 32767) {
            Some(decimal_value(d) as i16)
        } else {
            None
        }
    }
}

proof fn lemma_decimal_value_nonneg(s: Seq<char>)
    requires
        all_digits(s),
    ensures
        decimal_value(s) >= 0,
    decreases s.len(),
{
    if s.len() > 0 {
        assert(is_digit(s[s.len() - 1]));
        lemma_decimal_value_nonneg(s.drop_last());
    }
}

/// Reads the digits `cs[from..]`: `None` if one is not a digit or there are
/// none, else their value, or 32769 where it is larger.
fn capped_digits(cs: &Vec<char>, from: usize) -> (r: Option<u32>)
    requires
        from <= cs.len(),
    ensures
        match r {
            Some(v) => {
                let d = cs@.skip(from as int);
                &&& d.len() > 0
                &&& all_digits(d)
                &&& v as int == if decimal_value(d) > 32769 { 32769 } else { decimal_value(d) }
            },
            None => !(cs@.skip(from as int).len() > 0 && all_digits(cs@.skip(from as int))),
        },
{
    if from == cs.len() {
        return None;
    }
    let mut acc: u32 = 0;
    let mut i = from;
    while i < cs.len()
        invariant
            from <= i <= cs.len(),
            all_digits(cs@.subrange(from as int, i as int)),
            acc as int == if decimal_value(cs@.subrange(from as int, i as int)) > 32769 {
                32769
            } else {
                decimal_value(cs@.subrange(from as int, i as int))
            },
        decreases cs.len() - i,
    {
        let c = cs[i];
        let ghost prev = cs@.subrange(from as int, i as int);
        let ghost next = cs@.subrange(from as int, i + 1);
        if !('0' <= c && c <= '9') {
            assert(cs@.skip(from as int)[i - from] == c);
            return None;
        }
        assert(next.drop_last() =~= prev);
        assert(next.last() == c);
        proof {
            lemma_decimal_value_nonneg(prev);
        }
        let d = (c as u32) - ('0' as u32);
        if acc >= 32769 {
            acc = 32769;
        } else {
            acc = acc * 10 + d;
            if acc > 32769 {
                acc = 32769;
            }
        }
        assert(all_digits(next)) by {
            assert forall|k: int| 0 <= k < next.len() implies is_digit(#[trigger] next[k]) by {
                if k < next.len() - 1 {
                    assert(next[k] == prev[k]);
                }
            }
        }
        i = i + 1;
    }
    assert(cs@.subrange(from as int, cs.len() as int) =~= cs@.skip(from as int));
    Some(acc)
}

/// `str::parse::<i16>` on the characters `cs`.
pub fn parse_i16_chars(cs: &Vec<char>) -> (r: Option<i16>)
    ensures
        r == parse_i16_spec(cs@),
{
    if cs.len() > 0 && cs[0] == '-' {
        match capped_digits(cs, 1) {
            Some(v) => {
                if v <= 32768 {
                    let r = (0 - (v as i32)) as i16;
                    Some(r)
                } else {
                    None
                }
            },
            None => None,
        }
    } else {
        let from: usize = if cs.len() > 0 && cs[0] == '+' { 1 } else { 0 };
        assert(from == 0 ==> cs@.skip(0) =~= cs@);
        match capped_digits(cs, from) {
            Some(v) => {
                if v <= 32767 {
                    Some(v as i16)
                } else {
                    None
                }
            },
            None => None,
        }
    }
}

// ---------------------------------------------------------------------------
// Substrings and case
// ---------------------------------------------------------------------------

/// `needle` stands in `hay` from position `i` on.
pub open spec fn occurs_at(hay: Seq<char>, needle: Seq<char>, i: int) -> bool {
    0 <= i && i + needle.len() <= hay.len() && hay.subrange(i, i + needle.len()) == needle
}

/// `needle` stands somewhere in `hay` (the empty needle stands in every text).
pub open spec fn contains_chars(hay: Seq<char>, needle: Seq<char>) -> bool {
    exists|i: int| occurs_at(hay, needle, i)
}

/// Whether `needle` occurs in `hay`.
pub fn find_chars(hay: &Vec<char>, needle: &Vec<char>) -> (r: bool)
    ensures
        r == contains_chars(hay@, needle@),
{
    if needle.len() > hay.len() {
        assert(forall|i: int| !occurs_at(hay@, needle@, i));
        return false;
    }
    let last = hay.len() - needle.len();
    let mut i: usize = 0;
    while i <= last
        invariant
            last == hay.len() - needle.len(),
            needle.len() <= hay.len(),
            i <= last + 1,
            forall|k: int| 0 <= k < i ==> !occurs_at(hay@, needle@, k),
        decreases last + 1 - i,
    {
        let mut j: usize = 0;
        while j < needle.len() && hay[i + j] == needle[j]
            invariant
                i <= last,
                last == hay.len() - needle.len(),
                j <= needle.len(),
                forall|k: int| 0 <= k < j ==> hay@[i + k] == needle@[k],
            decreases needle.len() - j,
        {
            j = j + 1;
        }
        if j == needle.len() {
            assert(hay@.subrange(i as int, i + needle.len()) =~= needle@);
            assert(occurs_at(hay@, needle@, i as int));
            return true;
        }
        assert(!occurs_at(hay@, needle@, i as int)) by {
            assert(hay@.subrange(i as int, i + needle.len())[j as int] == hay@[i + j]);
        }
        i = i + 1;
    }
    assert forall|k: int| !occurs_at(hay@, needle@, k) by {
        if 0 <= k && k + needle.len() <= hay.len() {
            assert(k < i);
        }
    }
    false
}

/// What `str::to_lowercase` gives for a text: its Unicode lowercase, by the
/// characters' lowercase mappings and the rule that a word-final capital
/// sigma becomes a final small sigma.
pub uninterp spec fn lowercase(s: Seq<char>) -> Seq<char>;

/// `str::to_lowercase`, for text that is not all ASCII. Trusted: its result
/// is `lowercase` of the argument's
/// characters, and the empty text stays empty; Unicode's case tables are not
/// written out here.
#[verifier::external_body]
fn to_lowercase(s: &str) -> (r: String)
    ensures
        r@ == lowercase(s@),
        s@.len() == 0 ==> r@.len() == 0,
{
    s.to_lowercase()
}

/// `c` with an ASCII capital turned into its small letter.
pub open spec fn ascii_lower(c: char) -> char {
    if 'A' <= c <= 'Z' {
        ((c as int) + 32) as char
    } else {
        c
    }
}

/// The text with every ASCII capital turned into its small letter.
pub open spec fn ascii_fold(s: Seq<char>) -> Seq<char> {
    Seq::new(s.len(), |i: int| ascii_lower(s[i]))
}

/// What `str::to_lowercase` gives for a text: on ASCII text each capital
/// letter becomes its small letter; on other text, `lowercase`.
pub open spec fn lowercase_text(s: Seq<char>) -> Seq<char> {
    if vstd::utf8::is_ascii_chars(s) {
        ascii_fold(s)
    } else {
        lowercase(s)
    }
}

/// Whether `line` contains `query`, both taken in lowercase.
pub open spec fn matches_query(line: Seq<char>, query: Seq<char>) -> bool {
    contains_chars(lowercase_text(line), lowercase_text(query))
}

/// The lowercase characters of `s`, as `str::to_lowercase` gives them: the
/// ASCII case of an ASCII text is folded here, any other text goes to
/// `str::to_lowercase`.
pub fn lowercase_chars(s: &str) -> (r: Vec<char>)
    ensures
        r@ == lowercase_text(s@),
        s@.len() == 0 ==> r@.len() == 0,
{
    if s.is_ascii() {
        let cs = chars_of(s);
        let mut r: Vec<char> = Vec::new();
        let mut i: usize = 0;
        while i < cs.len()
            invariant
                i <= cs.len(),
                cs@ == s@,
                r@ =~= ascii_fold(cs@).take(i as int),
            decreases cs.len() - i,
        {
            let c = cs[i];
            if 'A' <= c && c <= 'Z' {
                let small = ((c as u32) + 32) as u8 as char;
                assert(small == ascii_lower(c)) by {
                    assert((c as u32) + 32 < 256);
                }
                r.push(small);
            } else {
                r.push(c);
            }
            i = i + 1;
        }
        assert(ascii_fold(cs@).take(cs@.len() as int) =~= ascii_fold(cs@));
        r
    } else {
        let l = to_lowercase(s);
        chars_of(l.as_str())
    }
}

/// `a` and `b` are the same character up to ASCII case.
pub open spec fn same_ignoring_ascii_case(a: char, b: char) -> bool {
    ||| a == b
    ||| ('A' <= a <= 'Z' && (b as int) == (a as int) + 32)
    ||| ('A' <= b <= 'Z' && (a as int) == (b as int) + 32)
}

proof fn lemma_ascii_lower_same(a: char, b: char)
    requires
        (a as int) < 128,
        (b as int) < 128,
    ensures
        (ascii_lower(a) == ascii_lower(b)) <==> same_ignoring_ascii_case(a, b),
{
    assert(('A' as int) == 65 && ('Z' as int) == 90 && ('a' as int) == 97 && ('z' as int) == 122);
    if 'A' <= a <= 'Z' {
        assert((ascii_lower(a) as int) == (a as int) + 32);
    } else {
        assert(ascii_lower(a) == a);
    }
    if 'A' <= b <= 'Z' {
        assert((ascii_lower(b) as int) == (b as int) + 32);
    } else {
        assert(ascii_lower(b) == b);
    }
}

/// `query` stands in `line` from position `i` on, each character equal up to
/// ASCII case.
pub open spec fn occurs_ignoring_ascii_case_at(line: Seq<char>, query: Seq<char>, i: int) -> bool {
    &&& 0 <= i
    &&& i + query.len() <= line.len()
    &&& forall|j: int| 0 <= j < query.len() ==> same_ignoring_ascii_case(line[i + j], #[trigger] query[j])
}

/// On ASCII texts, a line matches a query exactly when the query stands in
/// the line with each character equal up to ASCII case.
pub proof fn lemma_match_ignores_ascii_case(line: Seq<char>, query: Seq<char>)
    requires
        vstd::utf8::is_ascii_chars(line),
        vstd::utf8::is_ascii_chars(query),
    ensures
        matches_query(line, query) <==> exists|i: int| #[trigger]
            occurs_ignoring_ascii_case_at(line, query, i),
{
    let fl = ascii_fold(line);
    let fq = ascii_fold(query);
    assert(lowercase_text(line) == fl);
    assert(lowercase_text(query) == fq);
    assert forall|i: int, j: int|
        0 <= i && 0 <= j < query.len() && i + j < line.len() implies (#[trigger] fl[i + j] == #[trigger] fq[j]
        <==> same_ignoring_ascii_case(line[i + j], query[j])) by {
        vstd::utf8::is_ascii_chars_nat_bound(line);
        vstd::utf8::is_ascii_chars_nat_bound(query);
        lemma_ascii_lower_same(line[i + j], query[j]);
    }
    if matches_query(line, query) {
        let i = choose|i: int| occurs_at(fl, fq, i);
        assert forall|j: int| 0 <= j < query.len() implies same_ignoring_ascii_case(
            line[i + j],
            #[trigger] query[j],
        ) by {
            assert(fl.subrange(i, i + fq.len())[j] == fl[i + j]);
            assert(fl[i + j] == fq[j]);
        }
        assert(occurs_ignoring_ascii_case_at(line, query, i));
    }
    if exists|i: int| #[trigger] occurs_ignoring_ascii_case_at(line, query, i) {
        let i = choose|i: int| #[trigger] occurs_ignoring_ascii_case_at(line, query, i);
        assert forall|j: int| 0 <= j < fq.len() implies #[trigger] fl.subrange(i, i + fq.len())[j] == fq[j] by {
            assert(same_ignoring_ascii_case(line[i + j], query[j]));
            assert(fl[i + j] == fq[j]);
        }
        assert(fl.subrange(i, i + fq.len()) =~= fq);
        assert(occurs_at(fl, fq, i));
    }
}

/// A run of decimal digits of value at most 32767 reads as that value, with
/// or without a `+`; after a `-`, one of value at most 32768 reads as its
/// negation; a larger value is refused.
pub proof fn lemma_parse_digits(d: Seq<char>)
    requires
        d.len() > 0,
        all_digits(d),
    ensures
        decimal_value(d) <= 32767 ==> parse_i16_spec(d) == Some(decimal_value(d) as i16),
        decimal_value(d) <= 32767 ==> parse_i16_spec(seq!['+'] + d) == Some(decimal_value(d) as i16),
        decimal_value(d) <= 32768 ==> parse_i16_spec(seq!['-'] + d) == Some((0 - decimal_value(d)) as i16),
        decimal_value(d) > 32767 ==> parse_i16_spec(d) is None,
        decimal_value(d) > 32768 ==> parse_i16_spec(seq!['-'] + d) is None,
{
    assert(is_digit(d[0]));
    assert((seq!['+'] + d).skip(1) =~= d);
    assert((seq!['-'] + d).skip(1) =~= d);
}

} // verus!
