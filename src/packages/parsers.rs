use vstd::prelude::*;

use crate::debversion::{
    DebianVersionNum, VersionRelation, chars_of, copy_range, relation_of_text, string_of, valid_version_text,
    parse_model,
};
use crate::packages::{
    AltModel, Dependency, PackageError, PackageModel, Packages, RelVersionedPackageNum,
    alt_model, clause_model, clauses_wf, deps_model, registry_wf,
};

verus! {

/// A character of a field name: an ASCII letter or digit, `_` or `-`.
pub open spec fn is_key_char(c: char) -> bool {
    (48 <= c as u32 <= 57) || (65 <= c as u32 <= 90) || (97 <= c as u32 <= 122) || c as u32 == 95
        || c as u32 == 45
}

/// A character of a package name: those of a field name, `.` and `+`.
pub open spec fn is_name_char(c: char) -> bool {
    is_key_char(c) || c as u32 == 46 || c as u32 == 43
}

/// White space, as Unicode's `White_Space` property has it.
pub open spec fn is_space(c: char) -> bool {
    let u = c as u32;
    (9 <= u <= 13) || u == 32 || u == 133 || u == 160 || u == 5760 || (8192 <= u <= 8202) || u
        == 8232 || u == 8233 || u == 8239 || u == 8287 || u == 12288
}

/// End of the run of characters satisfying `name` (or, if not `name`, key
/// characters) that starts at `i`.
pub open spec fn run_end(s: Seq<char>, i: int, name: bool) -> int
    decreases s.len() - i,
{
    if 0 <= i < s.len() && (if name {
        is_name_char(s[i])
    } else {
        is_key_char(s[i])
    }) {
        run_end(s, i + 1, name)
    } else {
        i
    }
}

/// A `Key: value` line: the key is a run of field-name characters at the
/// start, followed by `: ` and a value of at least one character.
pub open spec fn key_value_of(s: Seq<char>) -> Option<(Seq<char>, Seq<char>)> {
    let k = run_end(s, 0, false);
    if k > 0 && k < s.len() && s.len() - k > 2 && s[k] == ':' && s[k + 1] == ' ' {
        Some((s.subrange(0, k), s.subrange(k + 2, s.len() as int)))
    } else {
        None
    }
}

/// Start of `s` without its leading white space, from `i` on.
pub open spec fn skip_space(s: Seq<char>, i: int) -> int
    decreases s.len() - i,
{
    if 0 <= i < s.len() && is_space(s[i]) {
        skip_space(s, i + 1)
    } else {
        i
    }
}

/// End of `s` without its trailing white space, from `j` down, not below `lo`.
pub open spec fn drop_space(s: Seq<char>, lo: int, j: int) -> int
    decreases j - lo,
{
    if lo < j <= s.len() && is_space(s[j - 1]) {
        drop_space(s, lo, j - 1)
    } else {
        j
    }
}

/// `s` without leading and trailing white space.
pub open spec fn trimmed(s: Seq<char>) -> Seq<char> {
    let lo = skip_space(s, 0);
    s.subrange(lo, drop_space(s, lo, s.len() as int))
}

pub open spec fn is_op_char(c: char) -> bool {
    c == '<' || c == '=' || c == '>'
}

/// The pieces of `s` between the separators `c`, as `str::split` gives them.
pub open spec fn split_on(s: Seq<char>, c: char) -> Seq<Seq<char>>
    decreases s.len(),
{
    if s.len() == 0 {
        seq![seq![]]
    } else if s.last() == c {
        split_on(s.drop_last(), c).push(seq![])
    } else {
        let p = split_on(s.drop_last(), c);
        p.update(p.len() - 1, p.last().push(s.last()))
    }
}

/// One alternative of a `Depends` field, trimmed: a package name, then maybe
/// ` (op version)`. The name runs over the name characters at the start;
/// the constraint is read when what follows the name is a space, `(`, one or
/// two of `<`, `=`, `>`, a space, the version, and the last `)`. The result
/// holds the name and the relation and version texts.
pub open spec fn alt_parts(s: Seq<char>) -> (Seq<char>, Option<(Seq<char>, Seq<char>)>) {
    let n = run_end(s, 0, true);
    let rest = s.subrange(n, s.len() as int);
    let op_len: int = if rest.len() > 3 && is_op_char(rest[3]) {
        2
    } else {
        1
    };
    let close = crate::debversion::last_before(rest, ')', rest.len() as int);
    if rest.len() > 2 + op_len && rest[0] == ' ' && rest[1] == '(' && is_op_char(rest[2])
        && rest[2 + op_len] == ' ' && close >= 3 + op_len {
        (s.subrange(0, n), Some((rest.subrange(2, 2 + op_len), rest.subrange(3 + op_len, close))))
    } else {
        (s.subrange(0, n), None)
    }
}

/// The alternative reads: it has a name, and a constraint, if any, has a
/// known relation and a valid version.
pub open spec fn alt_valid(s: Seq<char>) -> bool {
    let (name, c) = alt_parts(s);
    &&& name.len() > 0
    &&& match c {
        None => true,
        Some((op, ver)) => relation_of_text(op) is Some && valid_version_text(ver),
    }
}

fn exec_is_key_char(c: char, name: bool) -> (r: bool)
    ensures
        r == (if name {
            is_name_char(c)
        } else {
            is_key_char(c)
        }),
{
    let u = c as u32;
    let k = (48 <= u && u <= 57) || (65 <= u && u <= 90) || (97 <= u && u <= 122) || u == 95 || u
        == 45;
    if name {
        k || u == 46 || u == 43
    } else {
        k
    }
}

fn exec_run_end(s: &Vec<char>, name: bool) -> (r: usize)
    ensures
        r as int == run_end(s@, 0, name),
        r <= s.len(),
{
    let mut i: usize = 0;
    while i < s.len() && exec_is_key_char(s[i], name)
        invariant
            i <= s.len(),
            run_end(s@, 0, name) == run_end(s@, i as int, name),
        decreases s.len() - i,
    {
        i = i + 1;
    }
    i
}

fn exec_is_space(c: char) -> (r: bool)
    ensures
        r == is_space(c),
{
    let u = c as u32;
    (9 <= u && u <= 13) || u == 32 || u == 133 || u == 160 || u == 5760 || (8192 <= u && u <= 8202)
        || u == 8232 || u == 8233 || u == 8239 || u == 8287 || u == 12288
}

/// `s` without leading and trailing white space.
fn trim_chars(s: &Vec<char>) -> (r: Vec<char>)
    ensures
        r@ == trimmed(s@),
{
    let mut lo: usize = 0;
    while lo < s.len() && exec_is_space(s[lo])
        invariant
            lo <= s.len(),
            skip_space(s@, 0) == skip_space(s@, lo as int),
        decreases s.len() - lo,
    {
        lo = lo + 1;
    }
    let mut hi: usize = s.len();
    while hi > lo && exec_is_space(s[hi - 1])
        invariant
            lo <= hi <= s.len(),
            lo == skip_space(s@, 0),
            drop_space(s@, lo as int, s.len() as int) == drop_space(s@, lo as int, hi as int),
        decreases hi,
    {
        hi = hi - 1;
    }
    copy_range(s, lo, hi)
}

/// Splits a `Key: value` line into its key and value.
pub fn split_key_value(line: &str) -> (r: Option<(String, String)>)
    ensures
        match key_value_of(line@) {
            Some((k, v)) => r matches Some((rk, rv)) && rk@ == k && rv@ == v,
            None => r is None,
        },
{
    let s = chars_of(line);
    let k = exec_run_end(&s, false);
    if k > 0 && k < s.len() && s.len() - k > 2 && s[k] == ':' && s[k + 1] == ' ' {
        let key = copy_range(&s, 0, k);
        let value = copy_range(&s, k + 2, s.len());
        Some((string_of(&key), string_of(&value)))
    } else {
        None
    }
}

fn text_is(s: &String, lit: &str) -> (b: bool)
    ensures
        b == (s@ == lit@),
{
    *s == lit.to_owned()
}

fn split_chars(s: &Vec<char>, c: char) -> (r: Vec<Vec<char>>)
    ensures
        r@.map_values(|p: Vec<char>| p@) == split_on(s@, c),
{
    let mut pieces: Vec<Vec<char>> = Vec::new();
    let mut cur: Vec<char> = Vec::new();
    let mut i: usize = 0;
    proof {
        assert(s@.subrange(0, 0).len() == 0);
        assert(pieces@.map_values(|p: Vec<char>| p@).push(cur@) =~= split_on(s@.subrange(0, 0), c));
    }
    while i < s.len()
        invariant
            i <= s.len(),
            pieces@.map_values(|p: Vec<char>| p@).push(cur@) == split_on(s@.subrange(0, i as int), c),
        decreases s.len() - i,
    {
        let ghost pv = pieces@.map_values(|p: Vec<char>| p@);
        let ghost t = s@.subrange(0, i + 1);
        proof {
            assert(t.drop_last() =~= s@.subrange(0, i as int));
        }
        if s[i] == c {
            let done = cur;
            pieces.push(done);
            cur = Vec::new();
            proof {
                assert(pieces@.map_values(|p: Vec<char>| p@) =~= pv.push(done@));
                assert(pieces@.map_values(|p: Vec<char>| p@).push(cur@) =~= split_on(t, c));
            }
        } else {
            let ghost old_cur = cur@;
            cur.push(s[i]);
            proof {
                assert(pieces@.map_values(|p: Vec<char>| p@).push(cur@) =~= pv.push(old_cur).update(
                    pv.len() as int,
                    old_cur.push(s@[i as int]),
                ));
            }
        }
        i = i + 1;
    }
    let ghost pv = pieces@.map_values(|p: Vec<char>| p@);
    pieces.push(cur);
    proof {
        assert(s@.subrange(0, s@.len() as int) =~= s@);
        assert(pieces@.map_values(|p: Vec<char>| p@) =~= pv.push(cur@));
    }
    pieces
}

/// The registry after a parse: the packages it had keep their ids and
/// fields; new names may have been added after them.
pub open spec fn extends(before: Seq<PackageModel>, after: Seq<PackageModel>) -> bool {
    &&& before.len() <= after.len()
    &&& forall|i: int| 0 <= i < before.len() ==> #[trigger] after[i] == before[i]
}

/// `a` is what the alternative text `s` says over registry `m`.
pub open spec fn alt_read(m: Seq<PackageModel>, s: Seq<char>, a: AltModel) -> bool {
    let (name, c) = alt_parts(s);
    &&& 0 <= a.package < m.len()
    &&& m[a.package].name == name
    &&& match c {
        None => a.constraint is None,
        Some((op, ver)) => a.constraint matches Some((rop, rv)) && relation_of_text(op) == Some(
            rop,
        ) && rv == parse_model(ver),
    }
}

impl Packages {
    /// Reads one trimmed alternative, giving its package an id if it has
    /// none yet.
    fn parse_alternative(&mut self, text: &Vec<char>) -> (r: Result<
        RelVersionedPackageNum,
        PackageError,
    >)
        requires
            old(self).wf(),
        ensures
            final(self).wf(),
            final(self).queue() == old(self).queue(),
            final(self).server() == old(self).server(),
            extends(old(self).model(), final(self).model()),
            match r {
                Ok(a) => alt_valid(text@) && alt_read(final(self).model(), text@, alt_model(a)),
                Err(e) => (e == PackageError::MalformedClause && !alt_valid(text@)) || (e
                    == PackageError::Full && alt_valid(text@) && final(self).model().len()
                    == usize::MAX),
            },
    {
        let ghost parts = alt_parts(text@);
        let n = exec_run_end(text, true);
        if n == 0 {
            return Err(PackageError::MalformedClause);
        }
        let ghost rest = text@.subrange(n as int, text@.len() as int);
        let len = text.len() - n;
        let op_len: usize = if len > 3 && (text[n + 3] == '<' || text[n + 3] == '=' || text[n + 3]
            == '>') {
            2
        } else {
            1
        };
        let mut close: usize = len;
        while close > 0 && text[n + close - 1] != ')'
            invariant
                close <= len,
                len == rest.len(),
                n + len == text.len(),
                rest == text@.subrange(n as int, text@.len() as int),
                crate::debversion::last_before(rest, ')', rest.len() as int)
                    == crate::debversion::last_before(rest, ')', close as int),
            decreases close,
        {
            close = close - 1;
        }
        let ghost close_spec = crate::debversion::last_before(rest, ')', rest.len() as int);
        let has_constraint = len > 2 + op_len && text[n] == ' ' && text[n + 1] == '(' && (text[n
            + 2] == '<' || text[n + 2] == '=' || text[n + 2] == '>') && text[n + 2 + op_len] == ' '
            && close > 0 && close - 1 >= 3 + op_len;
        proof {
            assert(close > 0 ==> close_spec == close - 1);
            assert(close == 0 ==> close_spec == -1);
        }
        let rel_version = if has_constraint {
            let op_text = copy_range(text, n + 2, n + 2 + op_len);
            let ver_text = copy_range(text, n + 3 + op_len, n + close - 1);
            proof {
                assert(op_text@ =~= rest.subrange(2, 2 + op_len));
                assert(ver_text@ =~= rest.subrange(3 + op_len, close - 1));
            }
            let op = match VersionRelation::parse(string_of(&op_text).as_str()) {
                Ok(op) => op,
                Err(_) => {
                    return Err(PackageError::MalformedClause);
                },
            };
            let ver = match DebianVersionNum::parse(string_of(&ver_text).as_str()) {
                Ok(v) => v,
                Err(_) => {
                    return Err(PackageError::MalformedClause);
                },
            };
            Some((op, ver))
        } else {
            None
        };
        if self.packages.len() == usize::MAX {
            return Err(PackageError::Full);
        }
        let name = copy_range(text, 0, n);
        let id = self.get_package_num_inserting(string_of(&name).as_str());
        proof {
            let m = self.model();
            if let Some(i) = crate::packages::id_of(old(self).model(), name@) {
                assert(m[i].name == name@);
            }
        }
        Ok(RelVersionedPackageNum { package_num: id, rel_version })
    }

    /// Reads a `Depends` value: clauses separated by `,`, alternatives by
    /// `|`, each alternative trimmed and read as `name` or
    /// `name (op version)`. Every package named gets an id. Refused when an
    /// alternative does not read.
    pub fn parse_depends(&mut self, value: &str) -> (r: Result<Vec<Dependency>, PackageError>)
        requires
            old(self).wf(),
        ensures
            final(self).wf(),
            final(self).queue() == old(self).queue(),
            final(self).server() == old(self).server(),
            extends(old(self).model(), final(self).model()),
            match r {
                Ok(ds) => {
                    let pieces = depends_pieces(value@);
                    &&& ds@.len() == pieces.len()
                    &&& forall|j: int|
                        0 <= j < ds@.len() ==> (#[trigger] ds@[j])@.len() == pieces[j].len()
                    &&& forall|j: int, k: int|
                        0 <= j < ds@.len() && 0 <= k < ds@[j]@.len() ==> alt_valid(pieces[j][k])
                            && alt_read(
                            final(self).model(),
                            pieces[j][k],
                            alt_model(#[trigger] ds@[j]@[k]),
                        )
                    &&& clauses_wf(deps_model(ds@), final(self).model().len() as int)
                },
                Err(e) => (e == PackageError::MalformedClause && exists|j: int, k: int|
                    0 <= j < depends_pieces(value@).len() && 0 <= k < depends_pieces(
                        value@,
                    )[j].len() && !alt_valid(#[trigger] depends_pieces(value@)[j][k]))
                    || (e == PackageError::Full && final(self).model().len() == usize::MAX),
            },
            all_pieces_valid(value@) && final(self).model().len() < usize::MAX ==> r is Ok,
    {
        let ghost pieces = depends_pieces(value@);
        let text = chars_of(value);
        let groups = split_chars(&text, ',');
        let ghost gv = groups@.map_values(|p: Vec<char>| p@);
        let mut ds: Vec<Dependency> = Vec::new();
        let mut j: usize = 0;
        while j < groups.len()
            invariant
                self.wf(),
                self.queue() == old(self).queue(),
                self.server() == old(self).server(),
                extends(old(self).model(), self.model()),
                gv == groups@.map_values(|p: Vec<char>| p@),
                gv == split_on(value@, ','),
                pieces == depends_pieces(value@),
                j <= groups.len(),
                ds@.len() == j,
                forall|q: int| 0 <= q < j ==> (#[trigger] ds@[q])@.len() == pieces[q].len(),
                forall|q: int, k: int|
                    0 <= q < j && 0 <= k < ds@[q]@.len() ==> alt_valid(pieces[q][k]) && alt_read(
                        self.model(),
                        pieces[q][k],
                        alt_model(#[trigger] ds@[q]@[k]),
                    ),
            decreases groups.len() - j,
        {
            let alts = split_chars(&groups[j], '|');
            let ghost av = alts@.map_values(|p: Vec<char>| p@);
            proof {
                assert(gv[j as int] == groups@[j as int]@);
                assert(pieces[j as int] =~= av.map_values(|a: Seq<char>| trimmed(a)));
            }
            let mut clause: Dependency = Vec::new();
            let mut k: usize = 0;
            while k < alts.len()
                invariant
                    self.wf(),
                    self.queue() == old(self).queue(),
                    self.server() == old(self).server(),
                    extends(old(self).model(), self.model()),
                    pieces == depends_pieces(value@),
                    j < pieces.len(),
                    av == alts@.map_values(|p: Vec<char>| p@),
                    pieces[j as int] == av.map_values(|a: Seq<char>| trimmed(a)),
                    k <= alts.len(),
                    clause@.len() == k,
                    ds@.len() == j,
                    forall|q: int| 0 <= q < j ==> (#[trigger] ds@[q])@.len() == pieces[q].len(),
                    forall|q: int, t: int|
                        0 <= q < j && 0 <= t < ds@[q]@.len() ==> alt_valid(pieces[q][t])
                            && alt_read(self.model(), pieces[q][t], alt_model(#[trigger] ds@[q]@[t])),
                    forall|t: int|
                        0 <= t < k ==> alt_valid(pieces[j as int][t]) && alt_read(
                            self.model(),
                            pieces[j as int][t],
                            alt_model(#[trigger] clause@[t]),
                        ),
                decreases alts.len() - k,
            {
                let piece = trim_chars(&alts[k]);
                proof {
                    assert(pieces[j as int][k as int] == piece@);
                }
                let ghost before = self.model();
                match self.parse_alternative(&piece) {
                    Ok(a) => {
                        clause.push(a);
                    },
                    Err(e) => {
                        return Err(e);
                    },
                }
                proof {
                    let m = self.model();
                    assert forall|q: int, t: int|
                        0 <= q < j && 0 <= t < ds@[q]@.len() implies alt_valid(pieces[q][t])
                            && alt_read(m, pieces[q][t], alt_model(#[trigger] ds@[q]@[t])) by {
                        assert(alt_read(before, pieces[q][t], alt_model(ds@[q]@[t])));
                        assert(m[alt_model(ds@[q]@[t]).package] == before[alt_model(ds@[q]@[t]).package]);
                    }
                    assert forall|t: int|
                        0 <= t < k + 1 implies alt_valid(pieces[j as int][t]) && alt_read(
                            m,
                            pieces[j as int][t],
                            alt_model(#[trigger] clause@[t]),
                        ) by {
                        if t < k {
                            assert(alt_read(before, pieces[j as int][t], alt_model(clause@[t])));
                            assert(m[alt_model(clause@[t]).package] == before[alt_model(clause@[t]).package]);
                        }
                    }
                }
                k = k + 1;
            }
            ds.push(clause);
            proof {
                assert forall|q: int, t: int|
                    0 <= q < j + 1 && 0 <= t < ds@[q]@.len() implies alt_valid(pieces[q][t])
                        && alt_read(self.model(), pieces[q][t], alt_model(#[trigger] ds@[q]@[t])) by {
                    if q == j {
                        assert(ds@[q] == clause);
                    }
                }
            }
            j = j + 1;
        }
        proof {
            let m = self.model();
            let dm = deps_model(ds@);
            assert forall|q: int| 0 <= q < dm.len() implies {
                &&& (#[trigger] dm[q]).len() > 0
                &&& forall|t: int| 0 <= t < dm[q].len() ==> 0 <= (#[trigger] dm[q][t]).package < m.len()
            } by {
                lemma_split_nonempty(gv[q], '|');
                assert(dm[q][0] == alt_model(ds@[q]@[0]));
                assert forall|t: int| 0 <= t < dm[q].len() implies 0 <= (#[trigger] dm[q][t]).package < m.len() by {
                    assert(dm[q][t] == alt_model(ds@[q]@[t]));
                    assert(alt_read(m, pieces[q][t], alt_model(ds@[q]@[t])));
                }
            }
        }
        Ok(ds)
    }
}

/// The registry with package `c` changed as `f` says and nothing else.
pub open spec fn only_changed(before: Seq<PackageModel>, after: Seq<PackageModel>, c: int) -> bool {
    &&& before.len() <= after.len()
    &&& forall|i: int| 0 <= i < before.len() && i != c ==> #[trigger] after[i] == before[i]
    &&& after[c].name == before[c].name
}

impl Packages {
    /// Handles one line of a catalog, `current` being the package of the
    /// stanza (the last `Package:` line seen). `Package` starts a stanza;
    /// `Version`, `MD5sum` and `Depends` replace the field of the current
    /// package; other lines change nothing. Returns the package of the
    /// stanza after this line.
    pub fn parse_packages_line(&mut self, current: Option<usize>, line: &str) -> (r: Result<
        Option<usize>,
        PackageError,
    >)
        requires
            old(self).wf(),
        ensures
            final(self).wf(),
            final(self).queue() == old(self).queue(),
            final(self).server() == old(self).server(),
            r is Err ==> r == Err::<Option<usize>, PackageError>(PackageError::Full) || r == Err::<
                Option<usize>,
                PackageError,
            >(PackageError::NotFound) || r == Err::<Option<usize>, PackageError>(
                PackageError::MalformedVersion,
            ) || r == Err::<Option<usize>, PackageError>(PackageError::MalformedClause),
            match key_value_of(line@) {
                None => r == Ok::<Option<usize>, PackageError>(current) && final(self).model() == old(self).model(),
                Some((k, v)) => if k == "Package"@ {
                    package_line(old(self).model(), final(self).model(), v, r)
                } else if k == "Version"@ {
                    match current {
                        None => r == Ok::<Option<usize>, PackageError>(current) && final(self).model() == old(self).model(),
                        Some(c) => if c >= old(self).model().len() {
                            r == Err::<Option<usize>, PackageError>(PackageError::NotFound) && final(self).model() == old(self).model()
                        } else if !valid_version_text(trimmed(v)) {
                            r == Err::<Option<usize>, PackageError>(PackageError::MalformedVersion) && final(self).model() == old(self).model()
                        } else {
                            r == Ok::<Option<usize>, PackageError>(current) && final(self).model() == old(self).model().update(
                                c as int,
                                PackageModel { available: Some(parse_model(trimmed(v))), ..old(self).model()[c as int] },
                            )
                        },
                    }
                } else if k == "MD5sum"@ {
                    match current {
                        None => r == Ok::<Option<usize>, PackageError>(current) && final(self).model() == old(self).model(),
                        Some(c) => if c >= old(self).model().len() {
                            r == Err::<Option<usize>, PackageError>(PackageError::NotFound) && final(self).model() == old(self).model()
                        } else {
                            r == Ok::<Option<usize>, PackageError>(current) && final(self).model() == old(self).model().update(
                                c as int,
                                PackageModel { md5sum: Some(v), ..old(self).model()[c as int] },
                            )
                        },
                    }
                } else if k == "Depends"@ {
                    match current {
                        None => r == Ok::<Option<usize>, PackageError>(current) && final(self).model() == old(self).model(),
                        Some(c) => if c >= old(self).model().len() {
                            r == Err::<Option<usize>, PackageError>(PackageError::NotFound) && final(self).model() == old(self).model()
                        } else {
                            (r is Err ==> extends(old(self).model(), final(self).model())) && (r
                                == Err::<Option<usize>, PackageError>(PackageError::MalformedClause)
                                ==> !all_pieces_valid(v)) && (r == Err::<Option<usize>, PackageError>(
                                PackageError::Full) ==> final(self).model().len() == usize::MAX) && (
                            r is Err ==> r == Err::<Option<usize>, PackageError>(
                                PackageError::MalformedClause) || r == Err::<Option<usize>, PackageError>(
                                PackageError::Full)) && (all_pieces_valid(v) && final(self).model().len()
                                < usize::MAX ==> r is Ok) && (r is Ok ==> {
                                let pieces = depends_pieces(v);
                                let d = final(self).model()[c as int].deps;
                                &&& r == Ok::<Option<usize>, PackageError>(current)
                                &&& only_changed(old(self).model(), final(self).model(), c as int)
                                &&& final(self).model()[c as int] == PackageModel { deps: d, ..old(self).model()[c as int] }
                                &&& d.len() == pieces.len()
                                &&& forall|j: int| 0 <= j < d.len() ==> (#[trigger] d[j]).len() == pieces[j].len()
                                &&& forall|j: int, t: int|
                                    0 <= j < d.len() && 0 <= t < d[j].len() ==> alt_read(
                                        final(self).model(),
                                        pieces[j][t],
                                        #[trigger] d[j][t],
                                    )
                            })
                        },
                    }
                } else {
                    r == Ok::<Option<usize>, PackageError>(current) && final(self).model() == old(self).model()
                },
            },
    {
        let (k, v) = match split_key_value(line) {
            None => {
                return Ok(current);
            },
            Some(kv) => kv,
        };
        if text_is(&k, "Package") {
            return self.package_line(v.as_str());
        }
        let is_version = text_is(&k, "Version");
        let is_md5 = text_is(&k, "MD5sum");
        let is_depends = text_is(&k, "Depends");
        if !is_version && !is_md5 && !is_depends {
            return Ok(current);
        }
        let c = match current {
            None => {
                return Ok(current);
            },
            Some(c) => c,
        };
        if c >= self.packages.len() {
            return Err(PackageError::NotFound);
        }
        if is_version {
            let ver = match DebianVersionNum::parse(string_of(&trim_chars(&chars_of(v.as_str()))).as_str()) {
                Ok(x) => x,
                Err(_) => {
                    return Err(PackageError::MalformedVersion);
                },
            };
            let _ = self.set_available_debver(c, ver);
            Ok(current)
        } else if is_md5 {
            let _ = self.set_md5sum(c, v);
            Ok(current)
        } else {
            let ghost before = self.model();
            let ds = match self.parse_depends(v.as_str()) {
                Ok(ds) => ds,
                Err(e) => {
                    return Err(e);
                },
            };
            let ghost mid = self.model();
            let ghost dm = deps_model(ds@);
            let _ = self.set_dependencies(c, ds);
            proof {
                let m = self.model();
                let pieces = depends_pieces(v@);
                assert forall|j: int, t: int|
                    0 <= j < dm.len() && 0 <= t < dm[j].len() implies alt_read(
                        m,
                        pieces[j][t],
                        #[trigger] dm[j][t],
                    ) by {
                    assert(dm[j][t] == alt_model(ds@[j]@[t]));
                    assert(alt_read(mid, pieces[j][t], alt_model(ds@[j]@[t])));
                    let pk = dm[j][t].package;
                    assert(m[pk].name == mid[pk].name);
                }
                assert forall|j: int| 0 <= j < dm.len() implies (#[trigger] dm[j]).len() == pieces[j].len() by {
                    assert(dm[j] == clause_model(ds@[j]@));
                }
            }
            Ok(current)
        }
    }

    /// Handles one line of an installed-package list, `current` being the
    /// package of the stanza. `Package` starts a stanza; `Version` sets the
    /// installed version of the current package; other lines change nothing.
    pub fn parse_installed_line(&mut self, current: Option<usize>, line: &str) -> (r: Result<
        Option<usize>,
        PackageError,
    >)
        requires
            old(self).wf(),
        ensures
            final(self).wf(),
            final(self).queue() == old(self).queue(),
            final(self).server() == old(self).server(),
            match key_value_of(line@) {
                None => r == Ok::<Option<usize>, PackageError>(current) && final(self).model() == old(self).model(),
                Some((k, v)) => if k == "Package"@ {
                    package_line(old(self).model(), final(self).model(), v, r)
                } else if k == "Version"@ {
                    match current {
                        None => r == Ok::<Option<usize>, PackageError>(current) && final(self).model() == old(self).model(),
                        Some(c) => if c >= old(self).model().len() {
                            r == Err::<Option<usize>, PackageError>(PackageError::NotFound) && final(self).model() == old(self).model()
                        } else if !valid_version_text(trimmed(v)) {
                            r == Err::<Option<usize>, PackageError>(PackageError::MalformedVersion) && final(self).model() == old(self).model()
                        } else {
                            r == Ok::<Option<usize>, PackageError>(current) && final(self).model() == old(self).model().update(
                                c as int,
                                PackageModel { installed: Some(parse_model(trimmed(v))), ..old(self).model()[c as int] },
                            )
                        },
                    }
                } else {
                    r == Ok::<Option<usize>, PackageError>(current) && final(self).model() == old(self).model()
                },
            },
    {
        let (k, v) = match split_key_value(line) {
            None => {
                return Ok(current);
            },
            Some(kv) => kv,
        };
        if text_is(&k, "Package") {
            return self.package_line(v.as_str());
        }
        if !text_is(&k, "Version") {
            return Ok(current);
        }
        let c = match current {
            None => {
                return Ok(current);
            },
            Some(c) => c,
        };
        if c >= self.packages.len() {
            return Err(PackageError::NotFound);
        }
        let ver = match DebianVersionNum::parse(string_of(&trim_chars(&chars_of(v.as_str()))).as_str()) {
            Ok(x) => x,
            Err(_) => {
                return Err(PackageError::MalformedVersion);
            },
        };
        let _ = self.set_installed_debver(c, ver);
        Ok(current)
    }

    /// Records one row of a checksum list: the package's available version
    /// and checksum. Refused, with nothing changed, when the version does not
    /// read.
    pub fn add_csv_row(&mut self, name: &str, version: &str, md5sum: &str) -> (r: Result<
        usize,
        PackageError,
    >)
        requires
            old(self).wf(),
        ensures
            final(self).wf(),
            final(self).queue() == old(self).queue(),
            final(self).server() == old(self).server(),
            !valid_version_text(version@) ==> r == Err::<usize, PackageError>(
                PackageError::MalformedVersion,
            ) && final(self).model() == old(self).model(),
            r == Err::<usize, PackageError>(PackageError::Full) ==> final(self).model() == old(
                self,
            ).model(),
            r is Err ==> r == Err::<usize, PackageError>(PackageError::MalformedVersion) || r
                == Err::<usize, PackageError>(PackageError::Full),
            valid_version_text(version@) && (crate::packages::id_of(old(self).model(), name@) is Some
                || old(self).model().len() < usize::MAX) ==> (r matches Ok(i) && {
                let m = final(self).model();
                &&& crate::packages::id_of(m, name@) == Some(i as int)
                &&& m[i as int].available == Some(parse_model(version@))
                &&& m[i as int].md5sum == Some(md5sum@)
                &&& m[i as int].name == name@
                &&& m.len() <= old(self).model().len() + 1
                &&& forall|j: int| 0 <= j < old(self).model().len() && j != i ==> #[trigger] m[j] == old(self).model()[j]
            }),
    {
        let ver = match DebianVersionNum::parse(version) {
            Ok(v) => v,
            Err(_) => {
                return Err(PackageError::MalformedVersion);
            },
        };
        let ghost before = self.model();
        let n = self.packages.len();
        assert(before.len() == n);
        let i = match self.package_line(name) {
            Ok(Some(i)) => i,
            _ => {
                return Err(PackageError::Full);
            },
        };
        let ghost mid = self.model();
        proof {
            if let Some(j) = crate::packages::id_of(before, name@) {
                assert(0 <= j < n);
                assert(mid[j].name == name@);
            } else {
                assert(mid[n as int].name == name@);
            }
        }
        let _ = self.set_available_debver(i, ver);
        let _ = self.set_md5sum(i, md5sum.to_owned());
        proof {
            let m = self.model();
            assert(m[i as int].name == name@);
            assert(mid[i as int].name == name@);
            assert(crate::packages::id_of(m, name@) == Some(i as int)) by {
                assert(m[i as int].name == name@);
                let c = choose|j: int| 0 <= j < m.len() && (#[trigger] m[j]).name == name@;
                if c != i {
                    assert(m[c].name != m[i as int].name);
                }
            }
        }
        Ok(i)
    }

    /// Handles a `Package:` line: the id of the named package, given now if
    /// the registry has not seen the name.
    fn package_line(&mut self, name: &str) -> (r: Result<Option<usize>, PackageError>)
        requires
            old(self).wf(),
        ensures
            final(self).wf(),
            final(self).queue() == old(self).queue(),
            final(self).server() == old(self).server(),
            extends(old(self).model(), final(self).model()),
            package_line(old(self).model(), final(self).model(), name@, r),
    {
        if let Some(i) = self.find(name) {
            return Ok(Some(i));
        }
        if self.packages.len() == usize::MAX {
            return Err(PackageError::Full);
        }
        Ok(Some(self.get_package_num_inserting(name)))
    }
}

/// What a `Package:` line naming `name` does.
pub open spec fn package_line(
    before: Seq<PackageModel>,
    after: Seq<PackageModel>,
    name: Seq<char>,
    r: Result<Option<usize>, PackageError>,
) -> bool {
    match crate::packages::id_of(before, name) {
        Some(i) => r == Ok::<Option<usize>, PackageError>(Some(i as usize)) && after == before,
        None => if before.len() < usize::MAX {
            r == Ok::<Option<usize>, PackageError>(Some(before.len() as usize)) && after == before.push(
                PackageModel {
                    name: name,
                    available: None,
                    installed: None,
                    md5sum: None,
                    deps: seq![],
                },
            )
        } else {
            r == Err::<Option<usize>, PackageError>(PackageError::Full) && after == before
        },
    }
}

proof fn lemma_split_nonempty(s: Seq<char>, c: char)
    ensures
        split_on(s, c).len() >= 1,
    decreases s.len(),
{
    if s.len() > 0 {
        lemma_split_nonempty(s.drop_last(), c);
    }
}

/// Every alternative of a `Depends` value reads.
pub open spec fn all_pieces_valid(v: Seq<char>) -> bool {
    forall|j: int, k: int|
        0 <= j < depends_pieces(v).len() && 0 <= k < depends_pieces(v)[j].len() ==> alt_valid(
            #[trigger] depends_pieces(v)[j][k],
        )
}

/// The trimmed alternatives of each clause of a `Depends` value.
pub open spec fn depends_pieces(v: Seq<char>) -> Seq<Seq<Seq<char>>> {
    split_on(v, ',').map_values(
        |g: Seq<char>| split_on(g, '|').map_values(|a: Seq<char>| trimmed(a)),
    )
}

} // verus!
