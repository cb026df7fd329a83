use vstd::prelude::*;
use vstd::std_specs::iter::IteratorSpec;

verus! {

/// A relation between two versions, as written in a dependency constraint.
#[derive(Debug, PartialEq, Eq, Structural, Clone, Copy)]
pub enum VersionRelation {
    /// `<<`
    StrictlyLess,
    /// `<=`
    LessOrEqual,
    /// `=`
    Equal,
    /// `>=`
    GreaterOrEqual,
    /// `>>`
    StrictlyGreater,
}

/// Why a version string was refused.
#[derive(Debug, PartialEq, Eq, Structural, Clone, Copy)]
pub enum VersionError {
    MalformedVersion,
    MalformedRelation,
}

pub open spec fn is_digit(c: char) -> bool {
    48 <= c as u32 <= 57
}

pub open spec fn is_ascii_letter(c: char) -> bool {
    (97 <= c as u32 <= 122) || (65 <= c as u32 <= 90)
}

/// Rank of a non-digit character: `~` below the end of a run (rank 0),
/// letters below every other character.
pub open spec fn char_rank(c: char) -> int {
    if c as u32 == 126 {
        -1
    } else if is_ascii_letter(c) {
        c as u32 as int
    } else {
        c as u32 as int + 256
    }
}

pub open spec fn digit_value(c: char) -> int {
    c as u32 as int - 48
}

/// The comparison key of `s` from position `i` on. Every non-digit character
/// contributes its rank; every maximal digit run contributes a `0` (the end of
/// the non-digit run before it) and then its numeric value. `acc` is the value
/// of the digit run in progress, if `in_num`.
pub open spec fn key_from(s: Seq<char>, i: int, acc: int, in_num: bool) -> Seq<int>
    decreases s.len() - i,
{
    if i < 0 || i >= s.len() {
        if in_num {
            seq![0, acc]
        } else {
            seq![]
        }
    } else if is_digit(s[i]) {
        key_from(s, i + 1, (if in_num { acc * 10 } else { 0 }) + digit_value(s[i]), true)
    } else {
        (if in_num { seq![0, acc] } else { seq![] }) + seq![char_rank(s[i])] + key_from(
            s,
            i + 1,
            0,
            false,
        )
    }
}

/// The comparison key of a whole upstream or revision string.
pub open spec fn version_key(s: Seq<char>) -> Seq<int> {
    key_from(s, 0, 0, false)
}

/// Every number in the key fits in a `u64`.
pub open spec fn key_fits(k: Seq<int>) -> bool {
    forall|j: int| 0 <= j < k.len() ==> k[j] <= u64::MAX
}

/// Element `i` of `k`, with zeros past its end.
pub open spec fn padded(k: Seq<int>, i: int) -> int {
    if 0 <= i < k.len() {
        k[i]
    } else {
        0
    }
}

pub open spec fn max_len(a: Seq<int>, b: Seq<int>) -> int {
    if a.len() >= b.len() {
        a.len() as int
    } else {
        b.len() as int
    }
}

/// Lexicographic comparison of two keys from position `i` on, the shorter
/// one padded with zeros: -1, 0 or 1.
pub open spec fn lex_from(a: Seq<int>, b: Seq<int>, i: int) -> int
    decreases max_len(a, b) - i,
{
    if i >= max_len(a, b) {
        0
    } else if padded(a, i) < padded(b, i) {
        -1
    } else if padded(a, i) > padded(b, i) {
        1
    } else {
        lex_from(a, b, i + 1)
    }
}

/// Comparison of two upstream (or two revision) strings by the fragment rules.
pub open spec fn fragment_cmp(a: Seq<char>, b: Seq<char>) -> int {
    lex_from(version_key(a), version_key(b), 0)
}

/// The value of a string of decimal digits.
pub open spec fn num_val(s: Seq<char>) -> int
    decreases s.len(),
{
    if s.len() == 0 {
        0
    } else {
        num_val(s.drop_last()) * 10 + digit_value(s.last())
    }
}

/// What a version holds: the epoch as written (empty when absent), the
/// upstream part and the revision (empty when absent).
pub struct VersionModel {
    pub epoch_text: Seq<char>,
    pub upstream: Seq<char>,
    pub revision: Seq<char>,
}

impl VersionModel {
    pub open spec fn epoch(self) -> int {
        num_val(self.epoch_text)
    }
}

/// The total order on versions: -1, 0 or 1.
pub open spec fn version_cmp(a: VersionModel, b: VersionModel) -> int {
    if a.epoch() < b.epoch() {
        -1
    } else if a.epoch() > b.epoch() {
        1
    } else if fragment_cmp(a.upstream, b.upstream) != 0 {
        fragment_cmp(a.upstream, b.upstream)
    } else {
        fragment_cmp(a.revision, b.revision)
    }
}

/// What a relation says of `cmp`, the comparison of the first version with
/// the second.
pub open spec fn relation_holds(op: VersionRelation, cmp: int) -> bool {
    match op {
        VersionRelation::StrictlyLess => cmp < 0,
        VersionRelation::LessOrEqual => cmp <= 0,
        VersionRelation::Equal => cmp == 0,
        VersionRelation::GreaterOrEqual => cmp >= 0,
        VersionRelation::StrictlyGreater => cmp > 0,
    }
}

proof fn lemma_lex_antisym(a: Seq<int>, b: Seq<int>, i: int)
    ensures
        lex_from(a, b, i) == -lex_from(b, a, i),
        -1 <= lex_from(a, b, i) <= 1,
    decreases max_len(a, b) - i,
{
    if i < max_len(a, b) {
        lemma_lex_antisym(a, b, i + 1);
    }
}

proof fn lemma_lex_refl(a: Seq<int>, i: int)
    ensures
        lex_from(a, a, i) == 0,
    decreases max_len(a, a) - i,
{
    if i < max_len(a, a) {
        lemma_lex_refl(a, i + 1);
    }
}

proof fn lemma_lex_trans(a: Seq<int>, b: Seq<int>, c: Seq<int>, i: int)
    requires
        lex_from(a, b, i) <= 0,
        lex_from(b, c, i) <= 0,
    ensures
        lex_from(a, c, i) <= 0,
        lex_from(a, b, i) < 0 || lex_from(b, c, i) < 0 ==> lex_from(a, c, i) < 0,
    decreases a.len() + b.len() + c.len() + 1 - i,
{
    if i < max_len(a, b) || i < max_len(b, c) {
        if padded(a, i) == padded(b, i) && padded(b, i) == padded(c, i) {
            lemma_lex_trans(a, b, c, i + 1);
        }
    }
}

/// Position of the first `c` in `s` at or after `i`, or -1.
pub open spec fn first_from(s: Seq<char>, c: char, i: int) -> int
    decreases s.len() - i,
{
    if i < 0 || i >= s.len() {
        -1
    } else if s[i] == c {
        i
    } else {
        first_from(s, c, i + 1)
    }
}

/// Position of the last `c` in `s` before `i`, or -1.
pub open spec fn last_before(s: Seq<char>, c: char, i: int) -> int
    decreases i,
{
    if i <= 0 || i > s.len() {
        -1
    } else if s[i - 1] == c {
        i - 1
    } else {
        last_before(s, c, i - 1)
    }
}

pub open spec fn all_digits(t: Seq<char>) -> bool {
    forall|j: int| 0 <= j < t.len() ==> is_digit(#[trigger] t[j])
}

/// What follows the epoch separator, or the whole text when there is none.
pub open spec fn after_epoch(s: Seq<char>) -> Seq<char> {
    let e = first_from(s, ':', 0);
    if e < 0 {
        s
    } else {
        s.subrange(e + 1, s.len() as int)
    }
}

/// The parts of a version text: the epoch before the first `:`, the revision
/// after the last `-` of the rest, the upstream part between them.
pub open spec fn parse_model(s: Seq<char>) -> VersionModel {
    let e = first_from(s, ':', 0);
    let rest = after_epoch(s);
    let d = last_before(rest, '-', rest.len() as int);
    VersionModel {
        epoch_text: if e < 0 {
            seq![]
        } else {
            s.subrange(0, e)
        },
        upstream: if d < 0 {
            rest
        } else {
            rest.subrange(0, d)
        },
        revision: if d < 0 {
            seq![]
        } else {
            rest.subrange(d + 1, rest.len() as int)
        },
    }
}

/// A version text is accepted when its epoch, if present, is a number that
/// fits in a `u64`, its upstream part is not empty, and every digit run of
/// upstream and revision fits in a `u64`.
pub open spec fn valid_version_text(s: Seq<char>) -> bool {
    let m = parse_model(s);
    &&& (first_from(s, ':', 0) < 0 || (m.epoch_text.len() > 0 && all_digits(m.epoch_text)
        && m.epoch() <= u64::MAX))
    &&& m.upstream.len() > 0
    &&& key_fits(version_key(m.upstream))
    &&& key_fits(version_key(m.revision))
}

/// The text of a version: epoch and `:` when there is an epoch, the upstream
/// part, then `-` and the revision when there is a revision.
pub open spec fn version_text(m: VersionModel) -> Seq<char> {
    (if m.epoch_text.len() > 0 {
        m.epoch_text + seq![':']
    } else {
        seq![]
    }) + m.upstream + (if m.revision.len() > 0 {
        seq!['-'] + m.revision
    } else {
        seq![]
    })
}

pub open spec fn ints(k: Seq<i128>) -> Seq<int> {
    k.map_values(|x: i128| x as int)
}

/// The characters of `s`, in order.
pub(crate) fn chars_of(s: &str) -> (r: Vec<char>)
    ensures
        r@ == s@,
{
    broadcast use vstd::string::axiom_spec_iter, vstd::string::next_postcondition;

    let mut it = s.chars();
    let mut out: Vec<char> = Vec::new();
    loop
        invariant
            it.obeys_prophetic_iter_laws(),
            it.decrease() is Some,
            out@ + it.remaining() == s@,
        ensures
            out@ == s@,
        decreases it.decrease()->0,
    {
        match it.next() {
            Some(c) => {
                out.push(c);
                proof {
                    assert(out@ + it.remaining() =~= s@);
                }
            },
            None => {
                proof {
                    assert(out@ =~= s@);
                }
                break ;
            },
        }
    }
    out
}

/// Relies on `FromIterator<char>` for `String`: the string of these characters.
#[verifier::external_body]
pub(crate) fn string_of(v: &Vec<char>) -> (r: String)
    ensures
        r@ == v@,
{
    v.iter().collect()
}

proof fn lemma_num_val_step(s: Seq<char>, i: int)
    requires
        0 <= i < s.len(),
    ensures
        num_val(s.subrange(0, i + 1)) == num_val(s.subrange(0, i)) * 10 + digit_value(s[i]),
{
    assert(s.subrange(0, i + 1).drop_last() =~= s.subrange(0, i));
}

proof fn lemma_num_val_mono(s: Seq<char>, k: int)
    requires
        0 <= k <= s.len(),
        all_digits(s),
    ensures
        0 <= num_val(s.subrange(0, k)) <= num_val(s),
    decreases s.len(),
{
    if k == s.len() {
        assert(s.subrange(0, k) =~= s);
        lemma_num_val_nonneg(s);
    } else {
        let t = s.drop_last();
        assert(t.subrange(0, k) =~= s.subrange(0, k));
        lemma_num_val_mono(t, k);
        lemma_num_val_nonneg(t);
        assert(is_digit(s[s.len() - 1]));
    }
}

proof fn lemma_num_val_nonneg(s: Seq<char>)
    requires
        all_digits(s),
    ensures
        num_val(s) >= 0,
    decreases s.len(),
{
    if s.len() > 0 {
        lemma_num_val_nonneg(s.drop_last());
        assert(is_digit(s[s.len() - 1]));
    }
}

/// The value of the digits `s[lo..hi]`, or `None` when one of them is not a
/// digit or the value does not fit in a `u64`.
fn digits_value(s: &Vec<char>, lo: usize, hi: usize) -> (r: Option<u64>)
    requires
        lo <= hi <= s.len(),
    ensures
        ({
            let t = s@.subrange(lo as int, hi as int);
            match r {
                Some(v) => all_digits(t) && v == num_val(t),
                None => !all_digits(t) || num_val(t) > u64::MAX,
            }
        }),
{
    let ghost t = s@.subrange(lo as int, hi as int);
    let mut v: u64 = 0;
    let mut i: usize = lo;
    while i < hi
        invariant
            lo <= i <= hi <= s.len(),
            t == s@.subrange(lo as int, hi as int),
            forall|j: int| lo <= j < i ==> is_digit(#[trigger] s@[j]),
            v == num_val(t.subrange(0, i - lo)),
        decreases hi - i,
    {
        let c = s[i];
        let cv = c as u32;
        if !(48 <= cv && cv <= 57) {
            assert(t[i - lo] == c);
            assert(!is_digit(t[i - lo]));
            return None;
        }
        let d = (cv - 48) as u64;
        proof {
            lemma_num_val_step(t, i - lo);
            assert(t.subrange(0, i - lo + 1)[i - lo] == c);
        }
        if v > (u64::MAX - d) / 10 {
            proof {
                assert(t[i - lo] == c);
                if all_digits(t) {
                    lemma_num_val_mono(t, i - lo + 1);
                }
            }
            return None;
        }
        v = v * 10 + d;
        i = i + 1;
    }
    proof {
        assert(t.subrange(0, hi - lo) =~= t);
    }
    Some(v)
}

proof fn lemma_key_reaches(s: Seq<char>, i: int, a: int)
    requires
        a >= 0,
    ensures
        exists|j: int|
            0 <= j < key_from(s, i, a, true).len() && #[trigger] key_from(s, i, a, true)[j] >= a,
    decreases s.len() - i,
{
    if i < 0 || i >= s.len() {
        assert(key_from(s, i, a, true)[1] >= a);
    } else if is_digit(s[i]) {
        let b = a * 10 + digit_value(s[i]);
        lemma_key_reaches(s, i + 1, b);
        let k = key_from(s, i + 1, b, true);
        let j = choose|j: int| 0 <= j < k.len() && #[trigger] k[j] >= b;
        assert(key_from(s, i, a, true) == k);
        assert(key_from(s, i, a, true)[j] >= a);
    } else {
        assert(key_from(s, i, a, true)[1] >= a);
    }
}

/// The comparison key of `s`, or `None` when a digit run of `s` does not fit
/// in a `u64`.
fn compute_key(s: &Vec<char>) -> (r: Option<Vec<i128>>)
    ensures
        match r {
            Some(k) => ints(k@) == version_key(s@) && key_fits(version_key(s@)),
            None => !key_fits(version_key(s@)),
        },
{
    let mut out: Vec<i128> = Vec::new();
    let mut acc: u64 = 0;
    let mut in_num = false;
    let mut i: usize = 0;
    while i < s.len()
        invariant
            i <= s.len(),
            ints(out@) + key_from(s@, i as int, acc as int, in_num) == version_key(s@),
            key_fits(ints(out@)),
            forall|j: int| 0 <= j < out.len() ==> out@[j] >= -1,
            !in_num ==> acc == 0,
        decreases s.len() - i,
    {
        let c = s[i];
        let cv = c as u32;
        let ghost before = key_from(s@, i as int, acc as int, in_num);
        if 48 <= cv && cv <= 57 {
            let d = (cv - 48) as u64;
            let base: u64 = if in_num { acc } else { 0 };
            if base > (u64::MAX - d) / 10 {
                proof {
                    let a = base * 10 + d;
                    assert(before == key_from(s@, i + 1, a, true));
                    lemma_key_reaches(s@, i + 1, a);
                    let k = key_from(s@, i + 1, a, true);
                    let j = choose|j: int| 0 <= j < k.len() && #[trigger] k[j] >= a;
                    assert(version_key(s@)[out.len() + j] == key_from(s@, i + 1, a, true)[j]);
                }
                return None;
            }
            acc = base * 10 + d;
            in_num = true;
        } else {
            let rank: i128 = if cv == 126 {
                -1
            } else if (97 <= cv && cv <= 122) || (65 <= cv && cv <= 90) {
                cv as i128
            } else {
                cv as i128 + 256
            };
            let ghost old_out = out@;
            if in_num {
                out.push(0);
                out.push(acc as i128);
            }
            out.push(rank);
            proof {
                assert(ints(out@) =~= ints(old_out) + (if in_num {
                    seq![0, acc as int]
                } else {
                    seq![]
                }) + seq![char_rank(c)]);
            }
            acc = 0;
            in_num = false;
        }
        i = i + 1;
    }
    if in_num {
        out.push(0);
        out.push(acc as i128);
    }
    proof {
        assert(ints(out@) =~= version_key(s@));
    }
    Some(out)
}

/// Lexicographic comparison of two keys, zero-padded: -1, 0 or 1.
fn lex_cmp(a: &Vec<i128>, b: &Vec<i128>) -> (r: i8)
    ensures
        r as int == lex_from(ints(a@), ints(b@), 0),
{
    let ghost (x, y) = (ints(a@), ints(b@));
    let n = if a.len() >= b.len() {
        a.len()
    } else {
        b.len()
    };
    let mut i: usize = 0;
    while i < n
        invariant
            n == max_len(x, y),
            x == ints(a@),
            y == ints(b@),
            i <= n,
            lex_from(x, y, 0) == lex_from(x, y, i as int),
        decreases n - i,
    {
        let p: i128 = if i < a.len() {
            a[i]
        } else {
            0
        };
        let q: i128 = if i < b.len() {
            b[i]
        } else {
            0
        };
        assert(padded(x, i as int) == p as int);
        assert(padded(y, i as int) == q as int);
        if p < q {
            return -1;
        }
        if p > q {
            return 1;
        }
        i = i + 1;
    }
    0
}

/// The characters `s[lo..hi]`.
pub(crate) fn copy_range(s: &Vec<char>, lo: usize, hi: usize) -> (r: Vec<char>)
    requires
        lo <= hi <= s.len(),
    ensures
        r@ == s@.subrange(lo as int, hi as int),
{
    let mut out: Vec<char> = Vec::new();
    let mut i: usize = lo;
    while i < hi
        invariant
            lo <= i <= hi <= s.len(),
            out@ == s@.subrange(lo as int, i as int),
        decreases hi - i,
    {
        out.push(s[i]);
        proof {
            assert(out@ =~= s@.subrange(lo as int, i + 1));
        }
        i = i + 1;
    }
    out
}

/// A version: epoch, upstream part and revision, with the comparison keys
/// of the last two.
pub struct DebianVersionNum {
    epoch_text: Vec<char>,
    epoch: u64,
    upstream: Vec<char>,
    debian: Vec<char>,
    upstream_key: Vec<i128>,
    debian_key: Vec<i128>,
}

impl View for DebianVersionNum {
    type V = VersionModel;

    closed spec fn view(&self) -> VersionModel {
        VersionModel { epoch_text: self.epoch_text@, upstream: self.upstream@, revision: self.debian@ }
    }
}

impl DebianVersionNum {
    #[verifier::type_invariant]
    spec fn inv(self) -> bool {
        &&& self.epoch as int == num_val(self.epoch_text@)
        &&& ints(self.upstream_key@) == version_key(self.upstream@)
        &&& ints(self.debian_key@) == version_key(self.debian@)
    }

    /// Reads a version text: `[epoch:]upstream[-revision]`, split at the
    /// first `:` and at the last `-` after it.
    pub fn parse(s: &str) -> (r: Result<DebianVersionNum, VersionError>)
        ensures
            match r {
                Ok(v) => valid_version_text(s@) && v@ == parse_model(s@),
                Err(e) => !valid_version_text(s@) && e == VersionError::MalformedVersion,
            },
    {
        let t = chars_of(s);
        let ghost m = parse_model(s@);
        // the first ':'
        let mut e: usize = 0;
        while e < t.len() && t[e] != ':'
            invariant
                e <= t.len(),
                t@ == s@,
                first_from(t@, ':', 0) == first_from(t@, ':', e as int),
            decreases t.len() - e,
        {
            e = e + 1;
        }
        let has_epoch = e < t.len();
        let (epoch_text, epoch, start) = if has_epoch {
            match digits_value(&t, 0, e) {
                Some(v) => {
                    if e == 0 {
                        return Err(VersionError::MalformedVersion);
                    }
                    (copy_range(&t, 0, e), v, e + 1)
                },
                None => {
                    return Err(VersionError::MalformedVersion);
                },
            }
        } else {
            proof {
                assert(t@.subrange(0, 0) =~= Seq::<char>::empty());
            }
            (Vec::new(), 0, 0)
        };
        let ghost rest = after_epoch(t@);
        proof {
            assert(rest =~= t@.subrange(start as int, t@.len() as int));
        }
        // the last '-' after it
        let mut d: usize = t.len();
        while d > start && t[d - 1] != '-'
            invariant
                start <= d <= t.len(),
                t@ == s@,
                rest == t@.subrange(start as int, t@.len() as int),
                last_before(rest, '-', rest.len() as int) == last_before(
                    rest,
                    '-',
                    d - start,
                ),
            decreases d,
        {
            d = d - 1;
        }
        let (upstream, debian) = if d > start {
            (copy_range(&t, start, d - 1), copy_range(&t, d, t.len()))
        } else {
            (copy_range(&t, start, t.len()), Vec::new())
        };
        proof {
            assert(upstream@ =~= m.upstream);
            assert(debian@ =~= m.revision);
            assert(epoch_text@ =~= m.epoch_text);
        }
        if upstream.len() == 0 {
            return Err(VersionError::MalformedVersion);
        }
        let upstream_key = match compute_key(&upstream) {
            Some(k) => k,
            None => {
                return Err(VersionError::MalformedVersion);
            },
        };
        let debian_key = match compute_key(&debian) {
            Some(k) => k,
            None => {
                return Err(VersionError::MalformedVersion);
            },
        };
        Ok(DebianVersionNum { epoch_text, epoch, upstream, debian, upstream_key, debian_key })
    }

    /// The version's text, as it was read (a `-` with nothing after it is
    /// not kept).
    pub fn to_string(&self) -> (r: String)
        ensures
            r@ == version_text(self@),
    {
        let mut out: Vec<char> = Vec::new();
        let mut i: usize = 0;
        while i < self.epoch_text.len()
            invariant
                i <= self.epoch_text.len(),
                out@ == self.epoch_text@.subrange(0, i as int),
            decreases self.epoch_text.len() - i,
        {
            out.push(self.epoch_text[i]);
            proof {
                assert(out@ =~= self.epoch_text@.subrange(0, i + 1));
            }
            i = i + 1;
        }
        if self.epoch_text.len() > 0 {
            out.push(':');
        }
        let ghost head = out@;
        proof {
            assert(head =~= (if self.epoch_text@.len() > 0 {
                self.epoch_text@ + seq![':']
            } else {
                seq![]
            }));
        }
        let mut i: usize = 0;
        while i < self.upstream.len()
            invariant
                i <= self.upstream.len(),
                out@ == head + self.upstream@.subrange(0, i as int),
            decreases self.upstream.len() - i,
        {
            out.push(self.upstream[i]);
            proof {
                assert(out@ =~= head + self.upstream@.subrange(0, i + 1));
            }
            i = i + 1;
        }
        proof {
            assert(self.upstream@.subrange(0, self.upstream@.len() as int) =~= self.upstream@);
        }
        if self.debian.len() > 0 {
            out.push('-');
        }
        let ghost mid = out@;
        let mut i: usize = 0;
        while i < self.debian.len()
            invariant
                i <= self.debian.len(),
                out@ == mid + self.debian@.subrange(0, i as int),
            decreases self.debian.len() - i,
        {
            out.push(self.debian[i]);
            proof {
                assert(out@ =~= mid + self.debian@.subrange(0, i + 1));
            }
            i = i + 1;
        }
        proof {
            assert(out@ =~= version_text(self@));
        }
        string_of(&out)
    }

    /// Compares two versions by epoch, then upstream part, then revision:
    /// -1 when `self` is the lower, 0 when they are equal in the order, 1
    /// when `self` is the higher.
    pub fn compare(&self, other: &DebianVersionNum) -> (r: i8)
        ensures
            r as int == version_cmp(self@, other@),
    {
        proof {
            use_type_invariant(self);
            use_type_invariant(other);
        }
        if self.epoch < other.epoch {
            return -1;
        }
        if self.epoch > other.epoch {
            return 1;
        }
        let u = lex_cmp(&self.upstream_key, &other.upstream_key);
        if u != 0 {
            return u;
        }
        lex_cmp(&self.debian_key, &other.debian_key)
    }
}

pub open spec fn relation_text(op: VersionRelation) -> Seq<char> {
    match op {
        VersionRelation::StrictlyLess => seq!['<', '<'],
        VersionRelation::LessOrEqual => seq!['<', '='],
        VersionRelation::Equal => seq!['='],
        VersionRelation::GreaterOrEqual => seq!['>', '='],
        VersionRelation::StrictlyGreater => seq!['>', '>'],
    }
}

/// The relation written `s`, if any.
pub open spec fn relation_of_text(s: Seq<char>) -> Option<VersionRelation> {
    if s == seq!['<', '<'] {
        Some(VersionRelation::StrictlyLess)
    } else if s == seq!['<', '='] {
        Some(VersionRelation::LessOrEqual)
    } else if s == seq!['='] {
        Some(VersionRelation::Equal)
    } else if s == seq!['>', '='] {
        Some(VersionRelation::GreaterOrEqual)
    } else if s == seq!['>', '>'] {
        Some(VersionRelation::StrictlyGreater)
    } else {
        None
    }
}

impl VersionRelation {
    /// Reads one of `<<`, `<=`, `=`, `>=`, `>>`.
    pub fn parse(s: &str) -> (r: Result<VersionRelation, VersionError>)
        ensures
            match relation_of_text(s@) {
                Some(op) => r == Ok::<VersionRelation, VersionError>(op),
                None => r == Err::<VersionRelation, VersionError>(VersionError::MalformedRelation),
            },
    {
        let t = chars_of(s);
        if t.len() == 2 && t[1] == '<' && t[0] == '<' {
            assert(t@ =~= seq!['<', '<']);
            Ok(VersionRelation::StrictlyLess)
        } else if t.len() == 2 && t[0] == '<' && t[1] == '=' {
            assert(t@ =~= seq!['<', '=']);
            Ok(VersionRelation::LessOrEqual)
        } else if t.len() == 1 && t[0] == '=' {
            assert(t@ =~= seq!['=']);
            Ok(VersionRelation::Equal)
        } else if t.len() == 2 && t[0] == '>' && t[1] == '=' {
            assert(t@ =~= seq!['>', '=']);
            Ok(VersionRelation::GreaterOrEqual)
        } else if t.len() == 2 && t[0] == '>' && t[1] == '>' {
            assert(t@ =~= seq!['>', '>']);
            Ok(VersionRelation::StrictlyGreater)
        } else {
            proof {
                if t@.len() == 2 {
                    assert(seq!['<', '<'][0] == '<' && seq!['<', '<'][1] == '<');
                    assert(seq!['<', '='][0] == '<' && seq!['<', '='][1] == '=');
                    assert(seq!['>', '='][0] == '>' && seq!['>', '='][1] == '=');
                    assert(seq!['>', '>'][0] == '>' && seq!['>', '>'][1] == '>');
                }
                if t@.len() == 1 {
                    assert(seq!['='][0] == '=');
                }
            }
            Err(VersionError::MalformedRelation)
        }
    }

    /// The relation as written in a constraint.
    pub fn to_string(&self) -> (r: String)
        ensures
            r@ == relation_text(*self),
    {
        let v: Vec<char> = match self {
            VersionRelation::StrictlyLess => vec!['<', '<'],
            VersionRelation::LessOrEqual => vec!['<', '='],
            VersionRelation::Equal => vec!['='],
            VersionRelation::GreaterOrEqual => vec!['>', '='],
            VersionRelation::StrictlyGreater => vec!['>', '>'],
        };
        proof {
            assert(v@ =~= relation_text(*self));
        }
        string_of(&v)
    }
}

/// Whether `first op second` holds in the order of versions.
pub fn cmp_debversion_with_op(
    op: &VersionRelation,
    first: &DebianVersionNum,
    second: &DebianVersionNum,
) -> (r: bool)
    ensures
        r == relation_holds(*op, version_cmp(first@, second@)),
{
    let c = first.compare(second);
    match op {
        VersionRelation::StrictlyLess => c < 0,
        VersionRelation::LessOrEqual => c <= 0,
        VersionRelation::Equal => c == 0,
        VersionRelation::GreaterOrEqual => c >= 0,
        VersionRelation::StrictlyGreater => c > 0,
    }
}

/// The comparison of versions is a total order: every version equals
/// itself, swapping the operands negates the result, and `<=` and `<` are
/// transitive.
pub proof fn lemma_version_order(a: VersionModel, b: VersionModel, c: VersionModel)
    ensures
        version_cmp(a, a) == 0,
        version_cmp(a, b) == -version_cmp(b, a),
        -1 <= version_cmp(a, b) <= 1,
        version_cmp(a, b) <= 0 && version_cmp(b, a) <= 0 ==> version_cmp(a, b) == 0,
        version_cmp(a, b) <= 0 && version_cmp(b, c) <= 0 ==> version_cmp(a, c) <= 0,
        version_cmp(a, b) < 0 && version_cmp(b, c) <= 0 ==> version_cmp(a, c) < 0,
        version_cmp(a, b) <= 0 && version_cmp(b, c) < 0 ==> version_cmp(a, c) < 0,
        version_cmp(a, b) == 0 && version_cmp(b, c) == 0 ==> version_cmp(a, c) == 0,
{
    lemma_frag_order(a.upstream, b.upstream, c.upstream);
    lemma_frag_order(a.revision, b.revision, c.revision);
    lemma_frag_order(c.upstream, b.upstream, a.upstream);
    lemma_frag_order(c.revision, b.revision, a.revision);
    lemma_frag_order(a.upstream, c.upstream, b.upstream);
    lemma_frag_order(a.revision, c.revision, b.revision);
    lemma_lex_refl(version_key(a.upstream), 0);
    lemma_lex_refl(version_key(a.revision), 0);
}

proof fn lemma_frag_order(a: Seq<char>, b: Seq<char>, c: Seq<char>)
    ensures
        fragment_cmp(a, b) == -fragment_cmp(b, a),
        -1 <= fragment_cmp(a, b) <= 1,
        -1 <= fragment_cmp(b, c) <= 1,
        fragment_cmp(b, c) == -fragment_cmp(c, b),
        fragment_cmp(a, b) <= 0 && fragment_cmp(b, c) <= 0 ==> fragment_cmp(a, c) <= 0 && (
        fragment_cmp(a, b) < 0 || fragment_cmp(b, c) < 0 ==> fragment_cmp(a, c) < 0),
{
    let (x, y, z) = (version_key(a), version_key(b), version_key(c));
    lemma_lex_antisym(x, y, 0);
    lemma_lex_antisym(y, z, 0);
    if lex_from(x, y, 0) <= 0 && lex_from(y, z, 0) <= 0 {
        lemma_lex_trans(x, y, z, 0);
    }
}

/// `>=` holds of every version and itself, `<<` of none.
pub proof fn lemma_relation_reflexivity(v: VersionModel)
    ensures
        relation_holds(VersionRelation::GreaterOrEqual, version_cmp(v, v)),
        relation_holds(VersionRelation::LessOrEqual, version_cmp(v, v)),
        relation_holds(VersionRelation::Equal, version_cmp(v, v)),
        !relation_holds(VersionRelation::StrictlyLess, version_cmp(v, v)),
        !relation_holds(VersionRelation::StrictlyGreater, version_cmp(v, v)),
{
    lemma_version_order(v, v, v);
}

} // verus!
