//! Templates with `$name` / `${name}` variables, filled in from a list of
//! named values.

use vstd::prelude::*;
use vstd::string::{StrSliceExecFns, StringExecFns};

verus! {

#[derive(Debug, Clone)]
pub struct FormatString {
    pub parts: Vec<FormatStringPart>,
}

#[derive(Debug, Clone)]
pub enum FormatStringPart {
    Literal(String),
    Variable(String),
}

#[derive(Debug, Clone)]
pub enum EvalError {
    VarNotFound { requested: String },
}

/// One part of a template as plain values: `true` for a variable.
pub open spec fn part_view(p: FormatStringPart) -> (bool, Seq<char>) {
    match p {
        FormatStringPart::Literal(s) => (false, s@),
        FormatStringPart::Variable(s) => (true, s@),
    }
}

/// The value of the first variable with the given name.
pub open spec fn lookup(vars: Seq<(Seq<char>, Seq<char>)>, name: Seq<char>) -> Option<Seq<char>>
    decreases vars.len(),
{
    if vars.len() == 0 {
        None
    } else if vars[0].0 == name {
        Some(vars[0].1)
    } else {
        lookup(vars.drop_first(), name)
    }
}

/// The filled-in text of the first `n` parts, or the name of the first
/// variable among them that has no value.
pub open spec fn eval_parts(
    parts: Seq<(bool, Seq<char>)>,
    vars: Seq<(Seq<char>, Seq<char>)>,
    n: int,
) -> Result<Seq<char>, Seq<char>>
    decreases n,
{
    if n <= 0 {
        Ok(Seq::empty())
    } else {
        match eval_parts(parts, vars, n - 1) {
            Err(missing) => Err(missing),
            Ok(text) => {
                let p = parts[n - 1];
                if !p.0 {
                    Ok(text + p.1)
                } else {
                    match lookup(vars, p.1) {
                        Some(v) => Ok(text + v),
                        None => Err(p.1),
                    }
                }
            },
        }
    }
}

proof fn lemma_eval_err_sticky(parts: Seq<(bool, Seq<char>)>, vars: Seq<(Seq<char>, Seq<char>)>, m: int, n: int)
    requires
        0 <= m <= n,
        eval_parts(parts, vars, m) is Err,
    ensures
        eval_parts(parts, vars, n) == eval_parts(parts, vars, m),
    decreases n - m,
{
    if m < n {
        lemma_eval_err_sticky(parts, vars, m, n - 1);
    }
}

pub open spec fn vars_view(vars: Seq<(String, String)>) -> Seq<(Seq<char>, Seq<char>)> {
    vars.map_values(|kv: (String, String)| (kv.0@, kv.1@))
}

fn find_var(variables: &Vec<(String, String)>, name: &String) -> (r: Option<usize>)
    ensures
        match r {
            Some(i) => i < variables@.len() && lookup(vars_view(variables@), name@) == Some(variables@[i as int].1@),
            None => lookup(vars_view(variables@), name@) is None,
        },
{
    let ghost vs = vars_view(variables@);
    let mut i: usize = 0;
    proof {
        assert(vs.subrange(0, vs.len() as int) =~= vs);
    }
    while i < variables.len()
        invariant
            i <= variables@.len(),
            vs == vars_view(variables@),
            lookup(vs, name@) == lookup(vs.subrange(i as int, vs.len() as int), name@),
        decreases variables.len() - i,
    {
        let ghost rest = vs.subrange(i as int, vs.len() as int);
        proof {
            assert(rest[0] == (variables@[i as int].0@, variables@[i as int].1@));
            assert(rest.drop_first() =~= vs.subrange(i + 1, vs.len() as int));
        }
        if variables[i].0 == *name {
            return Some(i);
        }
        i += 1;
    }
    proof {
        assert(vs.subrange(i as int, vs.len() as int) =~= Seq::<(Seq<char>, Seq<char>)>::empty());
    }
    None
}

impl FormatString {
    /// Fills in every variable; fails with the first variable that has no
    /// value. Where a name is given twice, its first value counts.
    pub fn evaluate(&self, variables: &Vec<(String, String)>) -> (r: Result<String, EvalError>)
        ensures
            match eval_parts(self.parts@.map_values(|p: FormatStringPart| part_view(p)), vars_view(variables@), self.parts@.len() as int) {
                Ok(text) => r matches Ok(s) && s@ == text,
                Err(missing) => r matches Err(EvalError::VarNotFound { requested }) && requested@ == missing,
            },
    {
        let ghost ps = self.parts@.map_values(|p: FormatStringPart| part_view(p));
        let ghost vs = vars_view(variables@);
        let mut buffer = String::new();
        let mut i: usize = 0;
        while i < self.parts.len()
            invariant
                i <= self.parts@.len(),
                ps == self.parts@.map_values(|p: FormatStringPart| part_view(p)),
                vs == vars_view(variables@),
                eval_parts(ps, vs, i as int) == Ok::<Seq<char>, Seq<char>>(buffer@),
            decreases self.parts.len() - i,
        {
            proof {
                assert(ps[i as int] == part_view(self.parts@[i as int]));
            }
            match &self.parts[i] {
                FormatStringPart::Literal(string) => buffer.append(string.as_str()),
                FormatStringPart::Variable(variable) => match find_var(variables, variable) {
                    Some(k) => buffer.append(variables[k].1.as_str()),
                    None => {
                        proof {
                            lemma_eval_err_sticky(ps, vs, i + 1, ps.len() as int);
                        }
                        return Err(EvalError::VarNotFound { requested: variable.clone() });
                    },
                },
            }
            i += 1;
        }
        Ok(buffer)
    }
}

pub open spec fn is_name_char(c: char) -> bool {
    ('a' <= c && c <= 'z') || ('A' <= c && c <= 'Z') || c == '_'
}

/// How many name characters (ASCII letters and `_`) start at `i`.
pub open spec fn name_len(s: Seq<char>, i: int) -> int
    decreases s.len() - i,
{
    if i < 0 || i >= s.len() || !is_name_char(s[i]) {
        0
    } else {
        1 + name_len(s, i + 1)
    }
}

/// The literal text starting at `i` and where it ends: characters other than
/// `$`, and `$$` standing for one `$`.
pub open spec fn literal_at(s: Seq<char>, i: int) -> (Seq<char>, int)
    decreases s.len() - i,
{
    if i < 0 || i >= s.len() {
        (Seq::empty(), i)
    } else if s[i] != '$' {
        let (t, e) = literal_at(s, i + 1);
        (seq![s[i]] + t, e)
    } else if i + 1 < s.len() && s[i + 1] == '$' {
        let (t, e) = literal_at(s, i + 2);
        (seq!['$'] + t, e)
    } else {
        (Seq::empty(), i)
    }
}

/// The part starting at `i` and where it ends: `${name}`, `$name` or a
/// literal.
pub open spec fn part_at(s: Seq<char>, i: int) -> Option<((bool, Seq<char>), int)> {
    let k2 = name_len(s, i + 2);
    let k1 = name_len(s, i + 1);
    if 0 <= i && i + 1 < s.len() && s[i] == '$' && s[i + 1] == '{' && k2 > 0 && i + 2 + k2 < s.len() && s[i + 2 + k2] == '}' {
        Some(((true, s.subrange(i + 2, i + 2 + k2)), i + 3 + k2))
    } else if 0 <= i && i < s.len() && s[i] == '$' && k1 > 0 {
        Some(((true, s.subrange(i + 1, i + 1 + k1)), i + 1 + k1))
    } else {
        let (t, e) = literal_at(s, i);
        if e > i {
            Some(((false, t), e))
        } else {
            None
        }
    }
}

/// The parts read from `i` on, and where reading stopped.
pub open spec fn parts_from(s: Seq<char>, i: int) -> (Seq<(bool, Seq<char>)>, int)
    decreases s.len() - i,
{
    if i < 0 || i >= s.len() {
        (Seq::empty(), i)
    } else {
        match part_at(s, i) {
            None => (Seq::empty(), i),
            Some((p, e)) => if i < e <= s.len() {
                let (ps, end) = parts_from(s, e);
                (seq![p] + ps, end)
            } else {
                (Seq::empty(), i)
            },
        }
    }
}

proof fn lemma_name_len_bound(s: Seq<char>, i: int)
    ensures
        0 <= name_len(s, i),
        0 <= i <= s.len() ==> i + name_len(s, i) <= s.len(),
        forall|j: int| i <= j < i + name_len(s, i) ==> is_name_char(#[trigger] s[j]),
        0 <= i < s.len() && i + name_len(s, i) < s.len() ==> !is_name_char(s[i + name_len(s, i)]),
    decreases s.len() - i,
{
    if !(i < 0 || i >= s.len() || !is_name_char(s[i])) {
        lemma_name_len_bound(s, i + 1);
    }
}

proof fn lemma_literal_bound(s: Seq<char>, i: int)
    requires
        0 <= i,
    ensures
        i <= literal_at(s, i).1,
        i < s.len() ==> literal_at(s, i).1 <= s.len(),
    decreases s.len() - i,
{
    if i < s.len() {
        if s[i] != '$' {
            lemma_literal_bound(s, i + 1);
        } else if i + 1 < s.len() && s[i + 1] == '$' {
            lemma_literal_bound(s, i + 2);
        }
    }
}

fn name_char_at(s: &str, k: usize) -> (r: bool)
    requires
        k < s@.len(),
    ensures
        r == is_name_char(s@[k as int]),
{
    let c = s.get_char(k);
    ('a' <= c && c <= 'z') || ('A' <= c && c <= 'Z') || c == '_'
}

/// How many name characters start at `i`.
fn name_run(s: &str, n: usize, i: usize) -> (r: usize)
    requires
        n == s@.len(),
        i <= n,
    ensures
        r == name_len(s@, i as int),
{
    proof {
        lemma_name_len_bound(s@, i as int);
    }
    let mut k: usize = i;
    while k < n && name_char_at(s, k)
        invariant
            n == s@.len(),
            i <= k <= n,
            name_len(s@, i as int) == (k - i) + name_len(s@, k as int),
        decreases n - k,
    {
        k += 1;
    }
    (k - i) as usize
}

impl FormatString {
    /// Reads a template: `${name}` and `$name` are variables (names are
    /// ASCII letters and `_`), `$$` is a literal `$`, anything else is
    /// literal text. Fails with the text from the first `$` that starts
    /// none of these.
    pub fn parse(text: &str) -> (r: Result<FormatString, String>)
        ensures
            ({
                let (ps, end) = parts_from(text@, 0);
                if end >= text@.len() {
                    r matches Ok(f) && f.parts@.map_values(|p: FormatStringPart| part_view(p)) == ps
                } else {
                    r matches Err(rest) && rest@ == text@.subrange(end, text@.len() as int)
                }
            }),
    {
        let n = text.unicode_len();
        let ghost s = text@;
        let mut parts: Vec<FormatStringPart> = Vec::new();
        let mut i: usize = 0;
        proof {
            assert(parts@.map_values(|p: FormatStringPart| part_view(p)) + parts_from(s, 0).0 =~= parts_from(s, 0).0);
        }
        loop
            invariant
                n == s.len(),
                s == text@,
                i <= n,
                parts_from(s, 0).0 == parts@.map_values(|p: FormatStringPart| part_view(p)) + parts_from(s, i as int).0,
                parts_from(s, 0).1 == parts_from(s, i as int).1,
            ensures
                i >= n,
                parts_from(s, 0).0 == parts@.map_values(|p: FormatStringPart| part_view(p)) + parts_from(s, i as int).0,
                parts_from(s, 0).1 == parts_from(s, i as int).1,
            decreases n - i,
        {
            if i >= n {
                break;
            }
            let ghost before = parts@.map_values(|p: FormatStringPart| part_view(p));
            let k2 = if n - i >= 2 { name_run(text, n, i + 2) } else { 0 };
            let k1 = name_run(text, n, i + 1);
            proof {
                lemma_name_len_bound(s, i + 2);
                lemma_name_len_bound(s, i + 1);
            }
            let c0 = text.get_char(i);
            let braced = c0 == '$' && i + 1 < n && text.get_char(i + 1) == '{' && k2 > 0 && i + 2 + k2 < n
                && text.get_char(i + 2 + k2) == '}';
            if braced {
                let name = text.substring_char(i + 2, i + 2 + k2).to_owned();
                parts.push(FormatStringPart::Variable(name));
                proof {
                    let e = i + 3 + k2;
                    assert(part_at(s, i as int) == Some(((true, s.subrange(i + 2, i + 2 + k2)), e)));
                    assert(parts_from(s, i as int) == (seq![(true, s.subrange(i + 2, i + 2 + k2))] + parts_from(s, e).0, parts_from(s, e).1));
                    assert(parts@.map_values(|p: FormatStringPart| part_view(p)) =~= before.push((true, s.subrange(i + 2, i + 2 + k2))));
                    assert(before + parts_from(s, i as int).0 =~= parts@.map_values(|p: FormatStringPart| part_view(p)) + parts_from(s, e).0);
                }
                i = i + 3 + k2;
            } else if c0 == '$' && k1 > 0 {
                let name = text.substring_char(i + 1, i + 1 + k1).to_owned();
                parts.push(FormatStringPart::Variable(name));
                proof {
                    let e = i + 1 + k1;
                    assert(part_at(s, i as int) == Some(((true, s.subrange(i + 1, i + 1 + k1)), e)));
                    assert(parts_from(s, i as int) == (seq![(true, s.subrange(i + 1, i + 1 + k1))] + parts_from(s, e).0, parts_from(s, e).1));
                    assert(parts@.map_values(|p: FormatStringPart| part_view(p)) =~= before.push((true, s.subrange(i + 1, i + 1 + k1))));
                    assert(before + parts_from(s, i as int).0 =~= parts@.map_values(|p: FormatStringPart| part_view(p)) + parts_from(s, e).0);
                }
                i = i + 1 + k1;
            } else {
                let mut lit = String::new();
                let mut j: usize = i;
                proof {
                    lemma_literal_bound(s, i as int);
                    assert(lit@ + literal_at(s, i as int).0 =~= literal_at(s, i as int).0);
                }
                loop
                    invariant
                        n == s.len(),
                        s == text@,
                        i <= j <= n,
                        literal_at(s, i as int).0 == lit@ + literal_at(s, j as int).0,
                        literal_at(s, i as int).1 == literal_at(s, j as int).1,
                        i < n,
                        c0 == s[i as int],
                    ensures
                        i <= j <= n,
                        literal_at(s, i as int).0 == lit@ + literal_at(s, j as int).0,
                        literal_at(s, i as int).1 == literal_at(s, j as int).1,
                        literal_at(s, j as int) == (Seq::<char>::empty(), j as int),
                        c0 != '$' ==> j > i,
                    decreases n - j,
                {
                    if j >= n {
                        break;
                    }
                    let c = text.get_char(j);
                    proof {
                        if j == i {
                            assert(c == c0);
                        }
                    }
                    if c != '$' {
                        let ghost l0 = lit@;
                        let one = text.substring_char(j, j + 1);
                        lit.append(one);
                        proof {
                            assert(one@ =~= seq![c]);
                        }
                        j += 1;
                        proof {
                            assert(l0 + (seq![c] + literal_at(s, j as int).0) =~= lit@ + literal_at(s, j as int).0);
                        }
                    } else if j + 1 < n && text.get_char(j + 1) == '$' {
                        let ghost l0 = lit@;
                        lit.append("$");
                        proof {
                            reveal_strlit("$");
                            assert("$"@ =~= seq!['$']);
                        }
                        j += 2;
                        proof {
                            assert(l0 + (seq!['$'] + literal_at(s, j as int).0) =~= lit@ + literal_at(s, j as int).0);
                        }
                    } else {
                        break;
                    }
                }
                if j == i {
                    proof {
                        assert(literal_at(s, i as int).1 == i);
                        assert(part_at(s, i as int) is None);
                        assert(parts_from(s, i as int) == (Seq::<(bool, Seq<char>)>::empty(), i as int));
                        assert(before + parts_from(s, i as int).0 =~= before);
                    }
                    return Err(text.substring_char(i, n).to_owned());
                }
                proof {
                    assert(literal_at(s, j as int).0 =~= Seq::<char>::empty());
                    assert(lit@ =~= literal_at(s, i as int).0);
                }
                parts.push(FormatStringPart::Literal(lit));
                proof {
                    let e = j as int;
                    assert(part_at(s, i as int) == Some(((false, literal_at(s, i as int).0), e)));
                    assert(parts_from(s, i as int) == (seq![(false, literal_at(s, i as int).0)] + parts_from(s, e).0, parts_from(s, e).1));
                    assert(parts@.map_values(|p: FormatStringPart| part_view(p)) =~= before.push((false, literal_at(s, i as int).0)));
                    assert(before + parts_from(s, i as int).0 =~= parts@.map_values(|p: FormatStringPart| part_view(p)) + parts_from(s, e).0);
                }
                i = j;
            }
        }
        proof {
            assert(parts_from(s, i as int) == (Seq::<(bool, Seq<char>)>::empty(), i as int));
            assert(parts@.map_values(|p: FormatStringPart| part_view(p)) + Seq::<(bool, Seq<char>)>::empty() =~= parts@.map_values(|p: FormatStringPart| part_view(p)));
        }
        Ok(FormatString { parts })
    }
}

/// A literal as written in a template: each `$` doubled.
pub open spec fn escaped(t: Seq<char>) -> Seq<char>
    decreases t.len(),
{
    if t.len() == 0 {
        Seq::empty()
    } else {
        escaped(t.drop_last()) + if t.last() == '$' {
            seq!['$', '$']
        } else {
            seq![t.last()]
        }
    }
}

/// The text of the first `n` parts of a template.
pub open spec fn template_text(parts: Seq<(bool, Seq<char>)>, n: int) -> Seq<char>
    decreases n,
{
    if n <= 0 {
        Seq::empty()
    } else {
        template_text(parts, n - 1) + if parts[n - 1].0 {
            seq!['$', '{'] + parts[n - 1].1 + seq!['}']
        } else {
            escaped(parts[n - 1].1)
        }
    }
}

fn append_escaped(out: &mut String, t: &str)
    ensures
        final(out)@ == old(out)@ + escaped(t@),
{
    let n = t.unicode_len();
    let ghost start = out@;
    let mut i: usize = 0;
    proof {
        assert(t@.subrange(0, 0) =~= Seq::<char>::empty());
        assert(start + escaped(Seq::<char>::empty()) =~= start);
    }
    while i < n
        invariant
            n == t@.len(),
            i <= n,
            out@ == start + escaped(t@.subrange(0, i as int)),
        decreases n - i,
    {
        let c = t.get_char(i);
        let ghost before = out@;
        proof {
            let p = t@.subrange(0, i + 1);
            assert(p.drop_last() =~= t@.subrange(0, i as int));
            assert(p.last() == c);
            reveal_strlit("$$");
        }
        if c == '$' {
            out.append("$$");
            proof {
                assert("$$"@ =~= seq!['$', '$']);
            }
        } else {
            let one = t.substring_char(i, i + 1);
            out.append(one);
            proof {
                assert(one@ =~= seq![c]);
            }
        }
        proof {
            let p = t@.subrange(0, i + 1);
            assert(out@ =~= start + escaped(p));
        }
        i += 1;
    }
    proof {
        assert(t@.subrange(0, n as int) =~= t@);
    }
}

impl FormatString {
    /// The template as text that `parse` reads back: variables as
    /// `${name}`, literal `$` doubled.
    pub fn to_text(&self) -> (r: String)
        ensures
            r@ == template_text(self.parts@.map_values(|p: FormatStringPart| part_view(p)), self.parts@.len() as int),
    {
        let ghost ps = self.parts@.map_values(|p: FormatStringPart| part_view(p));
        let mut out = String::new();
        let mut i: usize = 0;
        while i < self.parts.len()
            invariant
                i <= self.parts@.len(),
                ps == self.parts@.map_values(|p: FormatStringPart| part_view(p)),
                out@ == template_text(ps, i as int),
            decreases self.parts.len() - i,
        {
            proof {
                assert(ps[i as int] == part_view(self.parts@[i as int]));
                reveal_strlit("${");
                reveal_strlit("}");
            }
            let ghost before = out@;
            match &self.parts[i] {
                FormatStringPart::Literal(text) => append_escaped(&mut out, text.as_str()),
                FormatStringPart::Variable(name) => {
                    out.append("${");
                    out.append(name.as_str());
                    out.append("}");
                    proof {
                        assert("${"@ =~= seq!['$', '{']);
                        assert("}"@ =~= seq!['}']);
                        assert(out@ =~= before + (seq!['$', '{'] + name@ + seq!['}']));
                    }
                },
            }
            i += 1;
        }
        out
    }
}

} // verus!
