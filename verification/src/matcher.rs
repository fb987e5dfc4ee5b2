//! Character matchers: the predicates attached to NFA transitions.

use vstd::prelude::*;

use crate::error::CompileError;

verus! {

broadcast use {vstd::utf8::char_is_scalar, vstd::utf8::char_u32_cast};

/// The mathematical value of a [`Matcher`]: either a set of characters
/// (possibly negated) or the epsilon matcher, which consumes nothing.
#[verifier::ext_equal]
pub enum MatcherV {
    CharSet { chars: Set<char>, negated: bool },
    Epsilon,
}

/// A transition predicate: a concrete character set with a negation flag, or
/// epsilon.  The set is stored as a duplicate-free vector.
#[derive(Debug, Clone)]
pub enum Matcher {
    Range(Vec<char>, bool),
    Epsilon,
}

impl View for Matcher {
    type V = MatcherV;

    open spec fn view(&self) -> MatcherV {
        match self {
            Matcher::Range(v, negated) => MatcherV::CharSet {
                chars: v@.to_set(),
                negated: *negated,
            },
            Matcher::Epsilon => MatcherV::Epsilon,
        }
    }
}

/// Whether matcher `m` accepts character `c`: set membership XOR negation;
/// epsilon accepts everything (it is only ever used without consuming input).
pub open spec fn accepts(m: MatcherV, c: char) -> bool {
    match m {
        MatcherV::CharSet { chars, negated } => chars.contains(c) != negated,
        MatcherV::Epsilon => true,
    }
}

/// The set of characters whose code point lies in `lo..=hi`.
pub open spec fn char_range(lo: u32, hi: u32) -> Set<char> {
    Set::new(|c: char| lo <= c as u32 && c as u32 <= hi)
}

/// The decimal digits.
pub open spec fn digit_chars() -> Set<char> {
    char_range('0' as u32, '9' as u32)
}

/// Letters, digits and underscore.
pub open spec fn word_chars() -> Set<char> {
    char_range('a' as u32, 'z' as u32).union(char_range('A' as u32, 'Z' as u32)).union(
        digit_chars(),
    ).insert('_')
}

/// Relies on `char::from_u32` from std: it returns `Some` exactly when the
/// code point is a Unicode scalar value (not a surrogate, at most 0x10FFFF),
/// and the returned character has that code point.
pub assume_specification[ char::from_u32 ](code: u32) -> (r: Option<char>)
    ensures
        (code < 0xD800 || (0xE000 <= code && code <= 0x10FFFF)) <==> r is Some,
        r is Some ==> (r->0) as u32 == code,
;

/// Whether `v` holds `c`.
fn vec_contains_char(v: &Vec<char>, c: char) -> (r: bool)
    ensures
        r == v@.contains(c),
{
    let mut j: usize = 0;
    let mut found = false;
    while j < v.len()
        invariant
            j <= v.len(),
            found == exists|k: int| 0 <= k < j && v@[k] == c,
        decreases v.len() - j,
    {
        if v[j] == c {
            found = true;
        }
        j += 1;
    }
    found
}

/// Appends to `v` every character in `lo..=hi` that it does not already hold.
fn push_char_range(v: &mut Vec<char>, lo: u32, hi: u32)
    requires
        hi <= 0x10FFFF,
    ensures
        final(v)@.to_set() == old(v)@.to_set().union(char_range(lo, hi)),
        old(v)@.no_duplicates() ==> final(v)@.no_duplicates(),
{
    if hi < lo {
        proof {
            assert(char_range(lo, hi) =~= Set::<char>::empty());
            assert(v@.to_set().union(char_range(lo, hi)) =~= v@.to_set());
        }
        return ;
    }
    let mut code: u32 = lo;
    while code <= hi
        invariant
            lo <= code <= hi + 1,
            hi <= 0x10FFFF,
            v@.to_set() == old(v)@.to_set().union(
                Set::new(|c: char| lo <= c as u32 && (c as u32) < code),
            ),
            old(v)@.no_duplicates() ==> v@.no_duplicates(),
        decreases hi + 1 - code,
    {
        let ghost pre = v@;
        let ghost upto = Set::new(|c: char| lo <= c as u32 && (c as u32) < code);
        let ghost upto1 = Set::new(|c: char| lo <= c as u32 && (c as u32) < code + 1);
        match char::from_u32(code) {
            Some(ch) => {
                proof {
                    assert(upto1 =~= upto.insert(ch)) by {
                        assert forall|x: char| upto1.contains(x) implies (upto.contains(x) || x
                            == ch) by {
                            if !upto.contains(x) {
                                assert(x as u32 == code);
                                vstd::utf8::char_u32_cast(x, code);
                                vstd::utf8::char_u32_cast(ch, code);
                            }
                        }
                    }
                }
                if !vec_contains_char(v, ch) {
                    v.push(ch);
                    proof {
                        pre.lemma_push_to_set_commute(ch);
                        assert(v@.to_set() =~= old(v)@.to_set().union(upto1));
                        if old(v)@.no_duplicates() {
                            assert(forall|k: int| 0 <= k < pre.len() ==> pre[k] != ch) by {
                                assert(!pre.contains(ch));
                            }
                            assert(v@.no_duplicates());
                        }
                    }
                } else {
                    proof {
                        assert(pre.to_set().contains(ch));
                        assert(v@.to_set() =~= old(v)@.to_set().union(upto1));
                    }
                }
            },
            None => {
                proof {
                    assert(upto1 =~= upto) by {
                        assert forall|x: char| upto1.contains(x) implies upto.contains(x) by {
                            if !upto.contains(x) {
                                assert(x as u32 == code);
                                vstd::utf8::char_is_scalar(x);
                            }
                        }
                    }
                    assert(v@.to_set() =~= old(v)@.to_set().union(upto1));
                }
            },
        }
        code += 1;
    }
    proof {
        assert(Set::new(|c: char| lo <= c as u32 && (c as u32) < code) =~= char_range(lo, hi));
    }
}

impl Matcher {
    /// Whether this matcher is the epsilon matcher.
    pub fn is_epsilon(&self) -> (r: bool)
        ensures
            r == (self@ is Epsilon),
    {
        matches!(self, Matcher::Epsilon)
    }

    /// Whether this matcher accepts `c`.
    pub fn matches(&self, c: char) -> (r: bool)
        ensures
            r == accepts(self@, c),
    {
        match self {
            Matcher::Range(chars, negated) => {
                let contains = vec_contains_char(chars, c);
                if *negated {
                    !contains
                } else {
                    contains
                }
            },
            Matcher::Epsilon => true,
        }
    }

    /// A matcher holding no characters at all.
    fn create_blank(negated: bool) -> (r: Matcher)
        ensures
            r@ == (MatcherV::CharSet { chars: Set::empty(), negated }),
            matcher_dedup(r),
    {
        let v: Vec<char> = Vec::new();
        proof {
            assert(v@.to_set() =~= Set::<char>::empty());
        }
        Matcher::Range(v, negated)
    }

    /// Adds `c` to a character-set matcher; epsilon is returned unchanged.
    fn append_literal(matcher: Matcher, c: char) -> (r: Matcher)
        ensures
            r@ == (match matcher@ {
                MatcherV::CharSet { chars, negated } => MatcherV::CharSet {
                    chars: chars.insert(c),
                    negated,
                },
                MatcherV::Epsilon => MatcherV::Epsilon,
            }),
            matcher_dedup(matcher) ==> matcher_dedup(r),
    {
        match matcher {
            Matcher::Range(mut chars, negated) => {
                let ghost pre = chars@;
                if !vec_contains_char(&chars, c) {
                    chars.push(c);
                    proof {
                        pre.lemma_push_to_set_commute(c);
                        if pre.no_duplicates() {
                            assert(forall|k: int| 0 <= k < pre.len() ==> pre[k] != c) by {
                                assert(!pre.contains(c));
                            }
                        }
                    }
                } else {
                    proof {
                        assert(chars@.to_set() =~= pre.to_set().insert(c));
                    }
                }
                Matcher::Range(chars, negated)
            },
            Matcher::Epsilon => Matcher::Epsilon,
        }
    }

    /// The `\d` class: decimal digits.
    fn create_digit() -> (r: Matcher)
        ensures
            r@ == (MatcherV::CharSet { chars: digit_chars(), negated: false }),
            matcher_dedup(r),
    {
        let mut v: Vec<char> = Vec::new();
        proof {
            assert(v@.to_set() =~= Set::<char>::empty());
        }
        push_char_range(&mut v, '0' as u32, '9' as u32);
        proof {
            assert(v@.to_set() =~= digit_chars());
        }
        Matcher::Range(v, false)
    }

    /// The `\w` class: letters, digits and underscore.
    fn create_alphanumeric() -> (r: Matcher)
        ensures
            r@ == (MatcherV::CharSet { chars: word_chars(), negated: false }),
            matcher_dedup(r),
    {
        let mut v: Vec<char> = Vec::new();
        proof {
            assert(v@.to_set() =~= Set::<char>::empty());
        }
        push_char_range(&mut v, 'a' as u32, 'z' as u32);
        push_char_range(&mut v, 'A' as u32, 'Z' as u32);
        push_char_range(&mut v, '0' as u32, '9' as u32);
        let ghost pre = v@;
        if !vec_contains_char(&v, '_') {
            v.push('_');
            proof {
                pre.lemma_push_to_set_commute('_');
                if pre.no_duplicates() {
                    assert(forall|k: int| 0 <= k < pre.len() ==> pre[k] != '_') by {
                        assert(!pre.contains('_'));
                    }
                }
            }
        } else {
            proof {
                assert(v@.to_set() =~= pre.to_set().insert('_'));
            }
        }
        proof {
            assert(v@.to_set() =~= word_chars());
        }
        Matcher::Range(v, false)
    }

    /// The `.` class: every character except `\n` and `\r`, held as a negated
    /// two-character set.
    fn create_dot() -> (r: Matcher)
        ensures
            r@ == (MatcherV::CharSet {
                chars: Set::empty().insert('\n').insert('\r'),
                negated: true,
            }),
            matcher_dedup(r),
    {
        let mut v: Vec<char> = Vec::new();
        v.push('\n');
        v.push('\r');
        proof {
            assert(v@ == Seq::empty().push('\n').push('\r'));
            assert(v@.to_set() =~= Set::empty().insert('\n').insert('\r')) by {
                assert(v@.contains('\n')) by {
                    assert(v@[0] == '\n');
                }
                assert(v@.contains('\r')) by {
                    assert(v@[1] == '\r');
                }
            }
        }
        Matcher::Range(v, true)
    }

    /// The matcher for a single literal character.
    pub fn create_simple_matcher(input: &char) -> (r: Matcher)
        ensures
            r@ == (MatcherV::CharSet { chars: Set::empty().insert(*input), negated: false }),
            matcher_dedup(r),
    {
        Matcher::append_literal(Matcher::create_blank(false), *input)
    }
}

/// A character-set matcher stores each character only once; epsilon holds
/// nothing to deduplicate.
pub open spec fn matcher_dedup(m: Matcher) -> bool {
    match m {
        Matcher::Range(v, _) => v@.no_duplicates(),
        Matcher::Epsilon => true,
    }
}

/// The characters of `s`, one per element.
pub(crate) fn chars_of(s: &str) -> (r: Vec<char>)
    ensures
        r@ == s@,
{
    let n = s.unicode_len();
    let mut r: Vec<char> = Vec::new();
    let mut i: usize = 0;
    while i < n
        invariant
            i <= n,
            n == s@.len(),
            r@ == s@.take(i as int),
        decreases n - i,
    {
        r.push(s.get_char(i));
        proof {
            assert(r@ =~= s@.take(i + 1 as int));
        }
        i += 1;
    }
    proof {
        assert(s@.take(n as int) =~= s@);
    }
    r
}

/// The index of the first `-` in `s` at or after `i`, or `s.len()` if there
/// is none.
pub open spec fn first_dash_from(s: Seq<char>, i: int) -> int
    decreases s.len() - i,
    when 0 <= i <= s.len()
{
    if i >= s.len() {
        s.len() as int
    } else if s[i] == '-' {
        i
    } else {
        first_dash_from(s, i + 1)
    }
}

proof fn lemma_first_dash(s: Seq<char>, i: int)
    requires
        0 <= i <= s.len(),
    ensures
        i <= first_dash_from(s, i) <= s.len(),
        first_dash_from(s, i) < s.len() ==> s[first_dash_from(s, i)] == '-',
        forall|k: int| i <= k < first_dash_from(s, i) ==> s[k] != '-',
    decreases s.len() - i,
{
    if i < s.len() && s[i] != '-' {
        lemma_first_dash(s, i + 1);
    }
}

/// Folds the body of a character class, left to right, into the set of
/// characters it denotes.  `i` is the scan position, `prev` the last
/// character of the preceding segment (if any), `acc` the set built so far.
/// Segments are the maximal `-`-free runs; an empty segment contributes a
/// literal `-`, and a segment that follows another extends `acc` with the
/// inclusive range from the previous segment's last character to this
/// segment's first, rejecting descending ranges.
pub open spec fn class_fold(inner: Seq<char>, i: int, prev: Option<char>, acc: Set<char>) -> Result<
    Set<char>,
    CompileError,
>
    decreases inner.len() - i,
    when 0 <= i <= inner.len()
    via class_fold_dec
{
    let j = first_dash_from(inner, i);
    if j == i {
        // empty segment: a literal '-'
        if j >= inner.len() {
            Ok(acc.insert('-'))
        } else {
            class_fold(inner, j + 1, Some('-'), acc.insert('-'))
        }
    } else {
        let seg = inner.subrange(i, j);
        let ranged = match prev {
            Some(p) => if p as u32 > seg[0] as u32 {
                Err(CompileError::InvalidRange(p, seg[0]))
            } else {
                Ok(acc.union(char_range(p as u32, seg[0] as u32)))
            },
            None => Ok(acc),
        };
        match ranged {
            Err(e) => Err(e),
            Ok(acc2) => {
                let acc3 = acc2.union(seg.to_set());
                if j >= inner.len() {
                    Ok(acc3)
                } else {
                    class_fold(inner, j + 1, Some(seg.last()), acc3)
                }
            },
        }
    }
}

#[via_fn]
proof fn class_fold_dec(inner: Seq<char>, i: int, prev: Option<char>, acc: Set<char>) {
    lemma_first_dash(inner, i);
}

/// The set a full class body (after the opening bracket's optional `^`)
/// denotes, together with the negation flag.
pub open spec fn spec_class(inner: Seq<char>) -> Result<(Set<char>, bool), CompileError> {
    let negated = inner.len() > 0 && inner[0] == '^';
    let body = if negated {
        inner.drop_first()
    } else {
        inner
    };
    if body.len() == 0 {
        Err(CompileError::EmptyClass)
    } else {
        match class_fold(body, 0, None, Set::empty()) {
            Ok(s) => Ok((s, negated)),
            Err(e) => Err(e),
        }
    }
}

/// What a complex class specifier compiles to: `.`, `d`, `w`, the escape
/// forms `\d`/`\w` (`\s` is recognised but unsupported), or a bracketed
/// class; anything else marks a malformed token stream.
pub open spec fn spec_complex(input: Seq<char>) -> Result<MatcherV, CompileError> {
    if input.len() == 1 {
        if input[0] == '.' {
            Ok(MatcherV::CharSet { chars: Set::empty().insert('\n').insert('\r'), negated: true })
        } else if input[0] == 'd' {
            Ok(MatcherV::CharSet { chars: digit_chars(), negated: false })
        } else if input[0] == 'w' {
            Ok(MatcherV::CharSet { chars: word_chars(), negated: false })
        } else {
            Err(CompileError::Internal)
        }
    } else if input.len() == 2 {
        if input[0] == '\\' && input[1] == 'd' {
            Ok(MatcherV::CharSet { chars: digit_chars(), negated: false })
        } else if input[0] == '\\' && input[1] == 'w' {
            Ok(MatcherV::CharSet { chars: word_chars(), negated: false })
        } else if input[0] == '\\' && input[1] == 's' {
            Err(CompileError::UnsupportedClass)
        } else if input[0] == '[' && input[1] == ']' {
            Err(CompileError::EmptyClass)
        } else {
            Err(CompileError::Internal)
        }
    } else if input.len() >= 3 {
        match spec_class(input.subrange(1, input.len() - 1)) {
            Ok((s, neg)) => Ok(MatcherV::CharSet { chars: s, negated: neg }),
            Err(e) => Err(e),
        }
    } else {
        Err(CompileError::Internal)
    }
}

impl Matcher {
    /// Compiles a complex class specifier: `.`, `d`, `w`, `\d`, `\w`, or a
    /// full bracketed class such as `[a-z0]` or `[^abc]`.
    pub fn create_complex_matcher(input: &str) -> (r: Result<Matcher, CompileError>)
        ensures
            match r {
                Ok(m) => spec_complex(input@) == Ok::<MatcherV, CompileError>(m@) && matcher_dedup(
                    m,
                ),
                Err(e) => spec_complex(input@) == Err::<MatcherV, CompileError>(e),
            },
    {
        let cs = chars_of(input);
        let n = cs.len();
        if n == 1 {
            if cs[0] == '.' {
                Ok(Matcher::create_dot())
            } else if cs[0] == 'd' {
                Ok(Matcher::create_digit())
            } else if cs[0] == 'w' {
                Ok(Matcher::create_alphanumeric())
            } else {
                Err(CompileError::Internal)
            }
        } else if n == 2 {
            if cs[0] == '\\' && cs[1] == 'd' {
                Ok(Matcher::create_digit())
            } else if cs[0] == '\\' && cs[1] == 'w' {
                Ok(Matcher::create_alphanumeric())
            } else if cs[0] == '\\' && cs[1] == 's' {
                Err(CompileError::UnsupportedClass)
            } else if cs[0] == '[' && cs[1] == ']' {
                Err(CompileError::EmptyClass)
            } else {
                Err(CompileError::Internal)
            }
        } else if n >= 3 {
            let ghost whole = input@.subrange(1, input@.len() - 1);
            let negated = cs[1] == '^';
            let start: usize = if negated {
                2
            } else {
                1
            };
            let end = n - 1;
            let ghost body = input@.subrange(start as int, end as int);
            proof {
                assert(whole.len() > 0 && whole[0] == '^' ==> body =~= whole.drop_first());
                assert(!(whole.len() > 0 && whole[0] == '^') ==> body =~= whole);
            }
            if start == end {
                proof {
                    assert(spec_class(whole) == Err::<(Set<char>, bool), CompileError>(
                        CompileError::EmptyClass,
                    ));
                }
                return Err(CompileError::EmptyClass);
            }
            match Self::class_body(&cs, start, end, Ghost(body)) {
                Ok(v) => Ok(Matcher::Range(v, negated)),
                Err(e) => Err(e),
            }
        } else {
            Err(CompileError::Internal)
        }
    }

    /// Collects the characters a class body denotes into a duplicate-free
    /// vector, scanning `cs[start..end]`.
    fn class_body(cs: &Vec<char>, start: usize, end: usize, Ghost(body): Ghost<Seq<char>>) -> (r:
        Result<Vec<char>, CompileError>)
        requires
            start < end <= cs@.len(),
            body == cs@.subrange(start as int, end as int),
        ensures
            match r {
                Ok(v) => class_fold(body, 0, None, Set::empty()) == Ok::<Set<char>, CompileError>(
                    v@.to_set(),
                ) && v@.no_duplicates(),
                Err(e) => class_fold(body, 0, None, Set::empty()) == Err::<Set<char>, CompileError>(
                    e,
                ),
            },
    {
        let blen = end - start;
        let mut v: Vec<char> = Vec::new();
        let mut prev: Option<char> = None;
        let mut i: usize = 0;
        proof {
            assert(v@.to_set() =~= Set::<char>::empty());
        }
        loop
            invariant
                i <= blen,
                blen == body.len(),
                start + blen == end <= cs@.len(),
                body == cs@.subrange(start as int, end as int),
                v@.no_duplicates(),
                class_fold(body, 0, None, Set::empty()) == class_fold(
                    body,
                    i as int,
                    prev,
                    v@.to_set(),
                ),
            decreases blen - i,
        {
            // scan for the next dash
            let mut j = i;
            while j < blen && cs[start + j] != '-'
                invariant
                    i <= j <= blen,
                    blen == body.len(),
                    start + blen == end <= cs@.len(),
                    body == cs@.subrange(start as int, end as int),
                    forall|k: int| i <= k < j ==> body[k] != '-',
                decreases blen - j,
            {
                j += 1;
            }
            proof {
                lemma_first_dash(body, i as int);
                assert(first_dash_from(body, i as int) == j as int) by {
                    if j < blen {
                        assert(body[j as int] == '-');
                    }
                    if first_dash_from(body, i as int) < j {
                        assert(body[first_dash_from(body, i as int)] != '-');
                    }
                    if j < first_dash_from(body, i as int) {
                        assert(body[j as int] != '-');
                    }
                }
            }
            if j == i {
                // empty segment: a literal '-'
                let ghost pre = v@;
                if !vec_contains_char(&v, '-') {
                    v.push('-');
                    proof {
                        pre.lemma_push_to_set_commute('-');
                        assert(forall|k: int| 0 <= k < pre.len() ==> pre[k] != '-') by {
                            assert(!pre.contains('-'));
                        }
                    }
                } else {
                    proof {
                        assert(v@.to_set() =~= pre.to_set().insert('-'));
                    }
                }
                prev = Some('-');
                if j >= blen {
                    return Ok(v);
                }
                i = j + 1;
            } else {
                let ghost seg = body.subrange(i as int, j as int);
                let first = cs[start + i];
                proof {
                    assert(seg[0] == first);
                }
                match prev {
                    Some(p) => {
                        if (p as u32) > (first as u32) {
                            return Err(CompileError::InvalidRange(p, first));
                        }
                        proof {
                            vstd::utf8::char_is_scalar(first);
                        }
                        push_char_range(&mut v, p as u32, first as u32);
                    },
                    None => {},
                }
                let ghost acc2 = v@.to_set();
                // add every character of the segment
                let mut k = i;
                while k < j
                    invariant
                        i <= k <= j <= blen,
                        blen == body.len(),
                        start + blen == end <= cs@.len(),
                        body == cs@.subrange(start as int, end as int),
                        seg == body.subrange(i as int, j as int),
                        v@.no_duplicates(),
                        v@.to_set() == acc2.union(seg.subrange(0, k - i).to_set()),
                        k > i ==> prev == Some(body[k - 1]),
                        k == i ==> v@.to_set() == acc2,
                    decreases j - k,
                {
                    let c = cs[start + k];
                    let ghost pre = v@;
                    let ghost segpre = seg.subrange(0, k - i);
                    proof {
                        assert(seg[k - i] == c);
                        assert(seg.subrange(0, k + 1 - i) =~= segpre.push(c));
                        segpre.lemma_push_to_set_commute(c);
                    }
                    if !vec_contains_char(&v, c) {
                        v.push(c);
                        proof {
                            pre.lemma_push_to_set_commute(c);
                            assert(forall|m: int| 0 <= m < pre.len() ==> pre[m] != c) by {
                                assert(!pre.contains(c));
                            }
                            assert(v@.to_set() =~= acc2.union(seg.subrange(0, k + 1 - i).to_set()));
                        }
                    } else {
                        proof {
                            assert(v@.to_set() =~= acc2.union(seg.subrange(0, k + 1 - i).to_set()));
                        }
                    }
                    prev = Some(c);
                    k += 1;
                }
                proof {
                    assert(seg.subrange(0, j - i) =~= seg);
                    assert(seg.last() == body[j - 1]);
                }
                if j >= blen {
                    return Ok(v);
                }
                i = j + 1;
            }
        }
    }
}

} // verus!
