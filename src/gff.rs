use vstd::prelude::*;

verus! {

/// The pieces of `s` between occurrences of `sep`: one more piece than
/// there are separators, empty pieces included.
pub open spec fn split_on(s: Seq<char>, sep: char) -> Seq<Seq<char>>
    decreases s.len(),
{
    if s.len() == 0 {
        seq![Seq::empty()]
    } else {
        let prev = split_on(s.drop_last(), sep);
        if s.last() == sep {
            prev.push(Seq::empty())
        } else {
            prev.update(prev.len() - 1, prev.last().push(s.last()))
        }
    }
}

proof fn lemma_split_nonempty(s: Seq<char>, sep: char)
    ensures
        split_on(s, sep).len() >= 1,
    decreases s.len(),
{
    if s.len() > 0 {
        lemma_split_nonempty(s.drop_last(), sep);
    }
}

pub open spec fn views(v: Seq<String>) -> Seq<Seq<char>> {
    v.map_values(|x: String| x@)
}

/// The pieces of `s` between occurrences of `sep`.
pub fn split_fields(s: &str, sep: char) -> (r: Vec<String>)
    ensures
        views(r@) == split_on(s@, sep),
{
    let n = s.unicode_len();
    let mut it = s.chars();
    let mut fields: Vec<String> = Vec::new();
    let mut start: usize = 0;
    let mut i: usize = 0;
    proof {
        assert(s@.subrange(0, 0) =~= Seq::<char>::empty());
        assert(views(fields@).push(s@.subrange(0, 0)) =~= split_on(s@.subrange(0, 0), sep));
    }
    while i < n
        invariant
            n == s@.len(),
            0 <= start <= i <= n,
            vstd::std_specs::iter::IteratorSpec::remaining(&it) == s@.subrange(i as int, n as int),
            views(fields@).push(s@.subrange(start as int, i as int)) == split_on(
                s@.subrange(0, i as int),
                sep,
            ),
        decreases n - i,
    {
        let c = it.next().unwrap();
        let ghost pre = s@.subrange(0, i as int);
        proof {
            assert(c == s@[i as int]);
            assert(s@.subrange(0, i + 1).drop_last() =~= pre);
            assert(s@.subrange(0, i + 1).last() == c);
            lemma_split_nonempty(pre, sep);
        }
        if c == sep {
            let ghost f0 = fields@;
            let ghost st0 = start as int;
            let piece = s.substring_char(start, i).to_owned();
            fields.push(piece);
            start = i + 1;
            proof {
                assert(views(fields@) =~= views(f0).push(s@.subrange(st0, i as int)));
                assert(s@.subrange(start as int, i + 1) =~= Seq::<char>::empty());
                assert(views(fields@).push(s@.subrange(start as int, i + 1)) =~= split_on(
                    s@.subrange(0, i + 1),
                    sep,
                ));
            }
        } else {
            proof {
                let prev = split_on(pre, sep);
                assert(s@.subrange(start as int, i + 1) =~= s@.subrange(start as int, i as int).push(c));
                assert(views(fields@).push(s@.subrange(start as int, i + 1)) =~= prev.update(
                    prev.len() - 1,
                    prev.last().push(c),
                ));
            }
        }
        i = i + 1;
        proof {
            assert(vstd::std_specs::iter::IteratorSpec::remaining(&it) =~= s@.subrange(i as int, n as int));
        }
    }
    let ghost f0 = fields@;
    let last = s.substring_char(start, n).to_owned();
    fields.push(last);
    proof {
        assert(views(fields@) =~= views(f0).push(s@.subrange(start as int, n as int)));
        assert(s@.subrange(0, n as int) =~= s@);
        assert(split_on(s@.subrange(0, n as int), sep) == split_on(s@, sep));

    }
    fields
}

/// One line of a feature annotation (GFF) file.
#[derive(Debug)]
pub struct GffRecord {
    pub seqname: String,
    pub source: String,
    pub feature_type: String,
    pub start: u64,
    pub end: u64,
    pub score: String,
    pub strand: String,
    /// `None` for `.`.
    pub phase: Option<u8>,
    /// The `key:value` words of the attribute column, in order.
    pub attributes: Vec<(String, String)>,
}

pub open spec fn is_digit(c: char) -> bool {
    '0' <= c && c <= '9'
}

pub open spec fn all_digits(s: Seq<char>) -> bool {
    forall|i: int| 0 <= i < s.len() ==> is_digit(#[trigger] s[i])
}

/// The value of a string of decimal digits.
pub open spec fn digits_value(s: Seq<char>) -> int
    decreases s.len(),
{
    if s.len() == 0 {
        0
    } else {
        digits_value(s.drop_last()) * 10 + (s.last() as int - '0' as int)
    }
}

/// The digits of a number, after an optional leading `+`.
pub open spec fn unsigned_digits(s: Seq<char>) -> Seq<char> {
    if s.len() > 0 && s[0] == '+' {
        s.drop_first()
    } else {
        s
    }
}

/// A decimal number of at most `max`: an optional `+` and at least one
/// digit, as an unsigned integer is written.
pub open spec fn parse_uint(s: Seq<char>, max: int) -> Option<int> {
    let d = unsigned_digits(s);
    if d.len() > 0 && all_digits(d) && digits_value(d) <= max {
        Some(digits_value(d))
    } else {
        None
    }
}

proof fn lemma_digits_grow(s: Seq<char>, k: int)
    requires
        all_digits(s),
        0 <= k <= s.len(),
    ensures
        0 <= digits_value(s.subrange(0, k)) <= digits_value(s),
    decreases s.len(),
{
    if s.len() > 0 {
        let t = s.drop_last();
        assert(all_digits(t)) by {
            assert forall|i: int| 0 <= i < t.len() implies is_digit(#[trigger] t[i]) by {
                assert(t[i] == s[i]);
            }
        }
        assert(is_digit(s[s.len() - 1]));
        if k < s.len() {
            lemma_digits_grow(t, k);
            assert(t.subrange(0, k) =~= s.subrange(0, k));
        } else {
            assert(s.subrange(0, k) =~= s);
            lemma_digits_grow(t, t.len() as int);
            assert(t.subrange(0, t.len() as int) =~= t);
        }
    }
}

/// The number written in `s` if it is at most `max`, as `parse_uint`
/// states.
pub fn parse_decimal(s: &str, max: u64) -> (r: Option<u64>)
    ensures
        r matches Some(v) ==> parse_uint(s@, max as int) == Some(v as int),
        r is None ==> parse_uint(s@, max as int) is None,
{
    let n = s.unicode_len();
    if n == 0 {
        return None;
    }
    let mut it = s.chars();
    let first = s.get_char(0);
    let off: usize = if first == '+' { 1 } else { 0 };
    let ghost d = unsigned_digits(s@);
    proof {
        assert(d =~= s@.subrange(off as int, n as int));
    }
    if off == 1 {
        let _ = it.next();
        if n == 1 {
            return None;
        }
    }
    let mut val: u64 = 0;
    let mut i: usize = off;
    while i < n
        invariant
            n == s@.len(),
            off <= i <= n,
            off < n,
            d == s@.subrange(off as int, n as int),
            d == unsigned_digits(s@),
            vstd::std_specs::iter::IteratorSpec::remaining(&it) == s@.subrange(i as int, n as int),
            all_digits(s@.subrange(off as int, i as int)),
            val as int == digits_value(s@.subrange(off as int, i as int)),
            val <= max,
        decreases n - i,
    {
        let c = it.next().unwrap();
        let ghost pre = s@.subrange(off as int, i as int);
        proof {
            assert(c == s@[i as int]);
            assert(s@.subrange(off as int, i + 1) =~= pre.push(c));
            assert(s@.subrange(off as int, i + 1).drop_last() =~= pre);
        }
        if !('0' <= c && c <= '9') {
            proof {
                assert(d[i - off] == c);
                assert(!is_digit(d[i - off]));
                assert(!all_digits(d));
                assert(parse_uint(s@, max as int) is None);
            }
            return None;
        }
        let dv: u64 = (c as u32 - '0' as u32) as u64;
        let next: u128 = val as u128 * 10 + dv as u128;
        proof {
            assert(all_digits(s@.subrange(off as int, i + 1))) by {
                let t = s@.subrange(off as int, i + 1);
                assert forall|k: int| 0 <= k < t.len() implies is_digit(#[trigger] t[k]) by {
                    if k < t.len() - 1 {
                        assert(t[k] == pre[k]);
                    }
                }
            }
            assert(next as int == digits_value(s@.subrange(off as int, i + 1)));
        }
        if next > max as u128 {
            proof {
                if all_digits(d) {
                    lemma_digits_grow(d, i + 1 - off);
                    assert(d.subrange(0, i + 1 - off) =~= s@.subrange(off as int, i + 1));
                    assert(digits_value(d) >= next);
                }
                assert(parse_uint(s@, max as int) is None);
            }
            return None;
        }
        val = next as u64;
        i = i + 1;
        proof {
            assert(vstd::std_specs::iter::IteratorSpec::remaining(&it) =~= s@.subrange(i as int, n as int));
        }
    }
    proof {
        assert(s@.subrange(off as int, n as int) == d);
    }
    Some(val)
}

/// A white-space character, as Unicode's White_Space property lists them.
pub open spec fn is_ws(c: char) -> bool {
    let u = c as u32;
    (9 <= u && u <= 13) || u == 32 || u == 0x85 || u == 0xa0 || u == 0x1680 || (0x2000 <= u
        && u <= 0x200a) || u == 0x2028 || u == 0x2029 || u == 0x202f || u == 0x205f || u == 0x3000
}

/// Whether `c` is white space.
pub fn is_whitespace_char(c: char) -> (r: bool)
    ensures
        r == is_ws(c),
{
    let u = c as u32;
    (9 <= u && u <= 13) || u == 32 || u == 0x85 || u == 0xa0 || u == 0x1680 || (0x2000 <= u
        && u <= 0x200a) || u == 0x2028 || u == 0x2029 || u == 0x202f || u == 0x205f || u == 0x3000
}

/// The words of `s` completed so far, and the word being read.
pub open spec fn ws_scan(s: Seq<char>) -> (Seq<Seq<char>>, Seq<char>)
    decreases s.len(),
{
    if s.len() == 0 {
        (Seq::empty(), Seq::empty())
    } else {
        let p = ws_scan(s.drop_last());
        let c = s.last();
        if is_ws(c) {
            if p.1.len() > 0 {
                (p.0.push(p.1), Seq::empty())
            } else {
                (p.0, Seq::empty())
            }
        } else {
            (p.0, p.1.push(c))
        }
    }
}

/// The maximal runs of characters of `s` that are not white space.
pub open spec fn ws_words(s: Seq<char>) -> Seq<Seq<char>> {
    let p = ws_scan(s);
    if p.1.len() > 0 {
        p.0.push(p.1)
    } else {
        p.0
    }
}

/// The words of `s` between runs of white space.
pub fn split_words(s: &str) -> (r: Vec<String>)
    ensures
        views(r@) == ws_words(s@),
{
    let n = s.unicode_len();
    let mut it = s.chars();
    let mut words: Vec<String> = Vec::new();
    let mut in_word = false;
    let mut start: usize = 0;
    let mut i: usize = 0;
    while i < n
        invariant
            n == s@.len(),
            0 <= start <= i <= n,
            vstd::std_specs::iter::IteratorSpec::remaining(&it) == s@.subrange(i as int, n as int),
            views(words@) == ws_scan(s@.subrange(0, i as int)).0,
            in_word ==> start < i && ws_scan(s@.subrange(0, i as int)).1 == s@.subrange(
                start as int,
                i as int,
            ),
            !in_word ==> ws_scan(s@.subrange(0, i as int)).1.len() == 0,
        decreases n - i,
    {
        let c = it.next().unwrap();
        let ghost pre = s@.subrange(0, i as int);
        let ghost w0 = words@;
        proof {
            assert(c == s@[i as int]);
            assert(s@.subrange(0, i + 1).drop_last() =~= pre);
            assert(s@.subrange(0, i + 1).last() == c);
        }
        if is_whitespace_char(c) {
            if in_word {
                let w = s.substring_char(start, i).to_owned();
                words.push(w);
                proof {
                    assert(views(words@) =~= views(w0).push(s@.subrange(start as int, i as int)));
                }
            }
            in_word = false;
        } else {
            if !in_word {
                start = i;
                in_word = true;
                proof {
                    assert(s@.subrange(start as int, i + 1) =~= Seq::<char>::empty().push(c));
                }
            } else {
                proof {
                    assert(s@.subrange(start as int, i + 1) =~= s@.subrange(start as int, i as int).push(c));
                }
            }
        }
        i = i + 1;
        proof {
            assert(vstd::std_specs::iter::IteratorSpec::remaining(&it) =~= s@.subrange(i as int, n as int));
        }
    }
    proof {
        assert(s@.subrange(0, n as int) =~= s@);
    }
    if in_word {
        let ghost w0 = words@;
        let w = s.substring_char(start, n).to_owned();
        words.push(w);
        proof {
            assert(views(words@) =~= views(w0).push(s@.subrange(start as int, n as int)));
        }
    }
    words
}

/// The `key:value` pairs among `words`: each word that splits on `:` into
/// exactly two pieces, in order.
pub open spec fn attr_pairs(words: Seq<Seq<char>>) -> Seq<(Seq<char>, Seq<char>)>
    decreases words.len(),
{
    if words.len() == 0 {
        Seq::empty()
    } else {
        let prev = attr_pairs(words.drop_last());
        let parts = split_on(words.last(), ':');
        if parts.len() == 2 {
            prev.push((parts[0], parts[1]))
        } else {
            prev
        }
    }
}

pub open spec fn pair_views(v: Seq<(String, String)>) -> Seq<(Seq<char>, Seq<char>)> {
    v.map_values(|p: (String, String)| (p.0@, p.1@))
}

/// The `key:value` attributes of an attribute column.
pub fn parse_attributes(s: &str) -> (r: Vec<(String, String)>)
    ensures
        pair_views(r@) == attr_pairs(ws_words(s@)),
{
    let words = split_words(s);
    let mut out: Vec<(String, String)> = Vec::new();
    let mut k: usize = 0;
    while k < words.len()
        invariant
            0 <= k <= words@.len(),
            views(words@) == ws_words(s@),
            pair_views(out@) == attr_pairs(views(words@).subrange(0, k as int)),
        decreases words@.len() - k,
    {
        let parts = split_fields(words[k].as_str(), ':');
        let ghost o0 = out@;
        let ghost ws = views(words@);
        proof {
            assert(ws.subrange(0, k + 1).drop_last() =~= ws.subrange(0, k as int));
            assert(ws.subrange(0, k + 1).last() == words@[k as int]@);
        }
        if parts.len() == 2 {
            out.push((parts[0].clone(), parts[1].clone()));
            proof {
                assert(pair_views(out@) =~= pair_views(o0).push((parts@[0]@, parts@[1]@)));
            }
        }
        k = k + 1;
    }
    proof {
        assert(views(words@).subrange(0, words@.len() as int) =~= views(words@));
    }
    out
}

/// The value of a decimal field, zero when it does not parse.
pub open spec fn uint_or_zero(s: Seq<char>, max: int) -> int {
    match parse_uint(s, max) {
        Some(v) => v,
        None => 0,
    }
}

/// `g` holds the nine tab-separated fields `f` of a line.
pub open spec fn record_of(g: GffRecord, f: Seq<Seq<char>>) -> bool {
    &&& g.seqname@ == f[0]
    &&& g.source@ == f[1]
    &&& g.feature_type@ == f[2]
    &&& g.start as int == uint_or_zero(f[3], u64::MAX as int)
    &&& g.end as int == uint_or_zero(f[4], u64::MAX as int)
    &&& g.score@ == f[5]
    &&& g.strand@ == f[6]
    &&& g.phase == if f[7] == seq!['.'] {
        None
    } else {
        Some(uint_or_zero(f[7], u8::MAX as int) as u8)
    }
    &&& pair_views(g.attributes@) == attr_pairs(ws_words(f[8]))
}

fn decimal_or_zero(s: &str, max: u64) -> (r: u64)
    ensures
        r as int == uint_or_zero(s@, max as int),
{
    match parse_decimal(s, max) {
        Some(v) => v,
        None => 0,
    }
}

/// Parses one annotation line of nine tab-separated fields; `None` when
/// the line has another number of fields. A start, end or phase that is
/// not a number reads as zero, and a phase of `.` as none.
pub fn parse(line: &str) -> (r: Option<GffRecord>)
    ensures
        r is Some <==> split_on(line@, '\t').len() == 9,
        r matches Some(g) ==> record_of(g, split_on(line@, '\t')),
{
    let words = split_fields(line, '\t');
    if words.len() != 9 {
        return None;
    }
    let phase_field = words[7].as_str();
    let dot = phase_field.unicode_len() == 1 && phase_field.get_char(0) == '.';
    proof {
        if dot {
            assert(phase_field@ =~= seq!['.']);
        } else if phase_field@ == seq!['.'] {
            assert(phase_field@.len() == 1);
        }
    }
    let phase = if dot {
        None
    } else {
        Some(decimal_or_zero(phase_field, 255) as u8)
    };
    let g = GffRecord {
        seqname: words[0].clone(),
        source: words[1].clone(),
        feature_type: words[2].clone(),
        start: decimal_or_zero(words[3].as_str(), u64::MAX),
        end: decimal_or_zero(words[4].as_str(), u64::MAX),
        score: words[5].clone(),
        strand: words[6].clone(),
        phase,
        attributes: parse_attributes(words[8].as_str()),
    };
    Some(g)
}

} // verus!
