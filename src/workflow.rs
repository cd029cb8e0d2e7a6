//! Workflow files: named lists of command lines, where a token `$name.index`
//! stands for the tokens of step `index` of workflow `name`.

use vstd::prelude::*;
use crate::semver::Semver;
use crate::text::{chars_of, join2, split_once, starts_with, starts_with_str, string_of};

verus! {

/// The versions a workflow file declares.
#[derive(Debug, Clone, Copy)]
pub struct Version {
    /// The format of the file; only `1.0.0` is read.
    pub format: Semver,
    /// The least version of the binary that the file needs.
    pub binary: Semver,
}

/// One command line of a workflow, as tokens.
#[derive(Debug, Clone)]
pub struct WorkflowStep(pub Vec<String>);

/// A named list of command lines.
#[derive(Debug, Clone)]
pub struct Workflow(pub Vec<WorkflowStep>);

/// Help text printed by a workflow file.
#[derive(Debug, Clone)]
pub struct WorkflowHelp {
    pub text: String,
    pub links: Vec<String>,
}

/// A workflow file.
#[derive(Debug)]
pub struct WorkflowFile {
    pub version: Version,
    /// The workflows by name, sorted by name.
    pub workflows: Vec<(String, Workflow)>,
    pub help: Option<WorkflowHelp>,
}

/// Whether some token of some step of some workflow refers to another step.
pub open spec fn has_refs(wfs: Seq<(String, Workflow)>) -> bool {
    exists|w: int, s: int, l: int|
        #![trigger wfs[w].1.0@[s].0@[l]]
        0 <= w < wfs.len() && 0 <= s < wfs[w].1.0@.len() && 0 <= l < wfs[w].1.0@[s].0@.len() && starts_with(
            wfs[w].1.0@[s].0@[l]@,
            "$"@,
        )
}

/// The most substitutions made before a file is taken to refer to itself.
pub const MAX_RESOLVE_STEPS: usize = 1024;

/// The tokens of a step.
pub open spec fn svs(v: Seq<String>) -> Seq<Seq<char>> {
    v.map_values(|t: String| t@)
}

/// The steps of a workflow, each as its tokens.
pub open spec fn steps_view(w: Workflow) -> Seq<Seq<Seq<char>>> {
    steps_of(w.0@)
}

/// Steps, each as its tokens.
pub open spec fn steps_of(v: Seq<WorkflowStep>) -> Seq<Seq<Seq<char>>> {
    v.map_values(|st: WorkflowStep| svs(st.0@))
}

/// The workflows of a file, each as its name and its steps.
pub open spec fn wfs_view(wfs: Seq<(String, Workflow)>) -> Seq<(Seq<char>, Seq<Seq<Seq<char>>>)> {
    wfs.map_values(|e: (String, Workflow)| (e.0@, steps_view(e.1)))
}

/// Workflow `i` is the first named `name`.
pub open spec fn first_named(v: Seq<(Seq<char>, Seq<Seq<Seq<char>>>)>, name: Seq<char>, i: int) -> bool {
    0 <= i < v.len() && v[i].0 == name && forall|j: int| 0 <= j < i ==> (#[trigger] v[j]).0 != name
}

proof fn lemma_first_named_unique(v: Seq<(Seq<char>, Seq<Seq<Seq<char>>>)>, name: Seq<char>, a: int, b: int)
    requires
        first_named(v, name, a),
        first_named(v, name, b),
    ensures
        a == b,
{
    if a < b {
        assert(v[a].0 == name);
    } else if b < a {
        assert(v[b].0 == name);
    }
}

/// Every character is a decimal digit.
pub open spec fn all_digits(s: Seq<char>) -> bool {
    forall|k: int| 0 <= k < s.len() ==> '0' <= #[trigger] s[k] <= '9'
}

/// The number that decimal digits `s` write.
pub open spec fn dec_val(s: Seq<char>) -> int
    decreases s.len(),
{
    if s.len() == 0 {
        0
    } else {
        dec_val(s.drop_last()) * 10 + ((s.last() as u32) - ('0' as u32))
    }
}

/// `s` is an index: decimal digits only, at least one, for a number that fits a `u32`.
pub open spec fn index_ok(s: Seq<char>) -> bool {
    s.len() > 0 && all_digits(s) && dec_val(s) <= 0xffff_ffff
}

proof fn lemma_dec_mono(s: Seq<char>, k: int)
    requires
        all_digits(s),
        0 <= k <= s.len(),
    ensures
        0 <= dec_val(s.take(k)) <= dec_val(s),
    decreases s.len(),
{
    if s.len() > 0 {
        let d = s.drop_last();
        assert(all_digits(d)) by {
            assert forall|j: int| 0 <= j < d.len() implies '0' <= #[trigger] d[j] <= '9' by {
                assert(d[j] == s[j]);
            }
        }
        assert('0' <= s[s.len() - 1] <= '9');
        lemma_dec_mono(d, d.len() as int);
        assert(d.take(d.len() as int) =~= d);
        if k < s.len() {
            lemma_dec_mono(d, k);
            assert(d.take(k) =~= s.take(k));
        } else {
            assert(s.take(k) =~= s);
        }
    }
}

/// Token `l` of step `s` of workflow `w` refers to another step.
pub open spec fn is_ref(v: Seq<(Seq<char>, Seq<Seq<Seq<char>>>)>, w: int, s: int, l: int) -> bool {
    0 <= w < v.len() && 0 <= s < v[w].1.len() && 0 <= l < v[w].1[s].len() && starts_with(v[w].1[s][l], "$"@)
}

/// Token `l` of step `s` of workflow `w` is the first that refers to another step.
pub open spec fn first_ref(v: Seq<(Seq<char>, Seq<Seq<Seq<char>>>)>, w: int, s: int, l: int) -> bool {
    is_ref(v, w, s, l) && forall|w2: int, s2: int, l2: int|
        #[trigger] is_ref(v, w2, s2, l2) ==> w < w2 || (w == w2 && s < s2) || (w == w2 && s == s2 && l <= l2)
}

/// What replacing the reference at `(w, s, l)` gives: `r` and the workflows `v2`
/// after it, from the workflows `v` before.
pub open spec fn substituted(
    v: Seq<(Seq<char>, Seq<Seq<Seq<char>>>)>,
    w: int,
    s: int,
    l: int,
    r: Result<bool, String>,
    v2: Seq<(Seq<char>, Seq<Seq<Seq<char>>>)>,
) -> bool {
    let line = v[w].1[s][l].skip(1);
    let name = crate::text::before_first(line, '.');
    let idx = crate::text::after_first(line, '.');
    if !line.contains('.') || !index_ok(idx) || !(exists|i: int| #[trigger] first_named(v, name, i)) {
        r is Err && v2 == v
    } else {
        let i = choose|i: int| #[trigger] first_named(v, name, i);
        if dec_val(idx) >= v[i].1.len() {
            r is Err && v2 == v
        } else {
            r == Ok::<bool, String>(true) && v2 == v.update(
                w,
                (v[w].0, v[w].1.update(s, v[w].1[s].take(l) + v[i].1[dec_val(idx)] + v[w].1[s].skip(l + 1))),
            )
        }
    }
}

/// A copy of a list of strings.
fn copy_strings(v: &Vec<String>) -> (r: Vec<String>)
    ensures
        svs(r@) == svs(v@),
{
    let mut out: Vec<String> = Vec::new();
    let mut k: usize = 0;
    while k < v.len()
        invariant
            k <= v@.len(),
            svs(out@) == svs(v@.take(k as int)),
        decreases v@.len() - k,
    {
        proof {
            assert(v@.take(k as int + 1) =~= v@.take(k as int).push(v@[k as int]));
            assert(svs(out@.push(v@[k as int])) =~= svs(out@).push(v@[k as int]@));
            assert(svs(v@.take(k as int).push(v@[k as int])) =~= svs(v@.take(k as int)).push(v@[k as int]@));
        }
        out.push(v[k].clone());
        k = k + 1;
    }
    assert(v@.take(v@.len() as int) =~= v@);
    out
}

/// A copy of a workflow.
fn copy_workflow(w: &Workflow) -> (r: Workflow)
    ensures
        steps_view(r) == steps_view(*w),
{
    let mut out: Vec<WorkflowStep> = Vec::new();
    let mut k: usize = 0;
    while k < w.0.len()
        invariant
            k <= w.0@.len(),
            steps_of(out@) == steps_of(w.0@.take(k as int)),
        decreases w.0@.len() - k,
    {
        let st = WorkflowStep(copy_strings(&w.0[k].0));
        proof {
            assert(w.0@.take(k as int + 1) =~= w.0@.take(k as int).push(w.0@[k as int]));
            assert(steps_of(out@.push(st)) =~= steps_of(out@).push(svs(st.0@)));
            assert(steps_of(w.0@.take(k as int).push(w.0@[k as int])) =~= steps_of(w.0@.take(k as int)).push(svs(w.0@[k as int].0@)));
        }
        out.push(st);
        k = k + 1;
    }
    assert(w.0@.take(w.0@.len() as int) =~= w.0@);
    Workflow(out)
}

/// A `u32` written in decimal digits only.
fn read_index(s: &str) -> (r: Option<usize>)
    ensures
        r is Some == index_ok(s@),
        r matches Some(i) ==> i as int == dec_val(s@),
{
    let v = chars_of(s);
    if v.len() == 0 {
        return None;
    }
    let mut acc: u64 = 0;
    let mut k: usize = 0;
    while k < v.len()
        invariant
            k <= v@.len(),
            v@ == s@,
            acc <= 0xffff_ffff,
            acc as int == dec_val(v@.take(k as int)),
            all_digits(v@.take(k as int)),
        decreases v@.len() - k,
    {
        let c = v[k];
        proof {
            assert(v@.take(k as int + 1).drop_last() =~= v@.take(k as int));
            assert(v@.take(k as int + 1).last() == c);
        }
        if !('0' <= c && c <= '9') {
            assert(!all_digits(s@)) by {
                assert(s@[k as int] == c);
            }
            return None;
        }
        let next = acc * 10 + ((c as u32) - ('0' as u32)) as u64;
        assert(all_digits(v@.take(k as int + 1))) by {
            assert forall|j: int| 0 <= j < k + 1 implies '0' <= #[trigger] v@.take(k as int + 1)[j] <= '9' by {
                if j < k {
                    assert(v@.take(k as int + 1)[j] == v@.take(k as int)[j]);
                }
            }
        }
        if next > 0xffff_ffff {
            proof {
                if all_digits(s@) {
                    lemma_dec_mono(s@, k as int + 1);
                }
            }
            return None;
        }
        acc = next;
        k = k + 1;
    }
    assert(v@.take(v@.len() as int) =~= v@);
    Some(acc as usize)
}

impl WorkflowFile {
    /// A copy of workflow `name`.
    pub fn workflow(&self, name: &str) -> (r: Option<Workflow>)
        ensures
            r is None == !exists|i: int| #[trigger] first_named(wfs_view(self.workflows@), name@, i),
            r matches Some(t) ==> exists|i: int|
                #[trigger] first_named(wfs_view(self.workflows@), name@, i) && steps_view(t) == wfs_view(self.workflows@)[i].1,
    {
        let n = name.to_owned();
        let mut i: usize = 0;
        let ghost v = wfs_view(self.workflows@);
        while i < self.workflows.len()
            invariant
                i <= self.workflows@.len(),
                n@ == name@,
                v == wfs_view(self.workflows@),
                forall|j: int| 0 <= j < i ==> (#[trigger] v[j]).0 != name@,
            decreases self.workflows@.len() - i,
        {
            if self.workflows[i].0 == n {
                assert(first_named(v, name@, i as int));
                return Some(copy_workflow(&self.workflows[i].1));
            }
            i = i + 1;
        }
        assert forall|j: int| !first_named(v, name@, j) by {
            if first_named(v, name@, j) {
                assert(v[j].0 != name@);
            }
        }
        None
    }

    /// The help text without its final line break, then the links, if any.
    pub fn fmt_help(&self) -> (r: Option<String>)
        ensures
            r is Some == self.help is Some,
            r matches Some(t) ==> t@ == help_body(self.help->Some_0.text@) + links_block(self.help->Some_0.links@),
    {
        let help = match &self.help {
            Some(h) => h,
            None => return None,
        };
        let c = chars_of(help.text.as_str());
        let text = if c.len() > 0 && c[c.len() - 1] == '\n' {
            let mut out: Vec<char> = Vec::new();
            let mut k: usize = 0;
            let last = c.len() - 1;
            while k < last
                invariant
                    last < c@.len(),
                    k <= last,
                    out@ == c@.take(k as int),
                decreases last - k,
            {
                proof {
                    assert(c@.take(k as int + 1) =~= c@.take(k as int).push(c@[k as int]));
                }
                out.push(c[k]);
                k = k + 1;
            }
            assert(out@ =~= help.text@.drop_last());
            string_of(&out)
        } else {
            String::new()
        };
        assert(text@ =~= help_body(help.text@));
        if help.links.len() == 0 {
            assert(text@ + links_block(help.links@) =~= text@);
            return Some(text);
        }
        let mut links = "\n\nFor more information, see:".to_owned();
        let mut k: usize = 0;
        assert(links@ =~= "\n\nFor more information, see:"@ + link_lines(help.links@.take(0)));
        while k < help.links.len()
            invariant
                k <= help.links@.len(),
                links@ == "\n\nFor more information, see:"@ + link_lines(help.links@.take(k as int)),
            decreases help.links@.len() - k,
        {
            proof {
                assert(help.links@.take(k as int + 1).drop_last() =~= help.links@.take(k as int));
            }
            let line = join2("\n  - ", help.links[k].as_str());
            links = join2(links.as_str(), line.as_str());
            k = k + 1;
        }
        assert(help.links@.take(help.links@.len() as int) =~= help.links@);
        Some(join2(text.as_str(), links.as_str()))
    }

    /// Replace the first token `$name.index` by the tokens of step `index` of
    /// workflow `name`; `Ok(false)` when there is none, and then nothing changes.
    pub fn resolve_once(&mut self) -> (r: Result<bool, String>)
        ensures
            (r == Ok::<bool, String>(false)) == !has_refs(old(self).workflows@),
            r == Ok::<bool, String>(false) ==> final(self).workflows@ == old(self).workflows@,
            r != Ok::<bool, String>(false) ==> exists|w: int, s: int, l: int|
                #[trigger] first_ref(wfs_view(old(self).workflows@), w, s, l) && substituted(
                    wfs_view(old(self).workflows@),
                    w,
                    s,
                    l,
                    r,
                    wfs_view(final(self).workflows@),
                ),
            final(self).version == old(self).version,
            final(self).help == old(self).help,
    {
        proof {
            reveal_strlit("$");
        }
        let mut w: usize = 0;
        while w < self.workflows.len()
            invariant
                *self == *old(self),
                w <= self.workflows@.len(),
                forall|a: int, b: int, l: int|
                    #![trigger self.workflows@[a].1.0@[b].0@[l]]
                    0 <= a < w && 0 <= b < self.workflows@[a].1.0@.len() && 0 <= l < self.workflows@[a].1.0@[b].0@.len()
                        ==> !starts_with(self.workflows@[a].1.0@[b].0@[l]@, "$"@),
            decreases self.workflows@.len() - w,
        {
            let steps = &self.workflows[w].1.0;
            let mut s: usize = 0;
            while s < steps.len()
                invariant
                    *self == *old(self),
                    w < self.workflows@.len(),
                    *steps == self.workflows@[w as int].1.0,
                    s <= steps@.len(),
                    forall|a: int, b: int, l: int|
                        #![trigger self.workflows@[a].1.0@[b].0@[l]]
                        ((0 <= a < w && 0 <= b < self.workflows@[a].1.0@.len()) || (a == w && 0 <= b < s)) && 0 <= l
                            < self.workflows@[a].1.0@[b].0@.len() ==> !starts_with(self.workflows@[a].1.0@[b].0@[l]@, "$"@),
                decreases steps@.len() - s,
            {
                let toks = &steps[s].0;
                let mut l: usize = 0;
                while l < toks.len()
                    invariant
                        *self == *old(self),
                        w < self.workflows@.len(),
                        *steps == self.workflows@[w as int].1.0,
                        s < steps@.len(),
                        *toks == steps@[s as int].0,
                        l <= toks@.len(),
                        forall|a: int, b: int, m: int|
                            #![trigger self.workflows@[a].1.0@[b].0@[m]]
                            ((0 <= a < w && 0 <= b < self.workflows@[a].1.0@.len()) || (a == w && 0 <= b < s) || (a == w && b
                                == s && m < l)) && 0 <= m < self.workflows@[a].1.0@[b].0@.len() ==> !starts_with(
                                self.workflows@[a].1.0@[b].0@[m]@,
                                "$"@,
                            ),
                    decreases toks@.len() - l,
                {
                    if starts_with_str(toks[l].as_str(), "$") {
                        proof {
                            assert(self.workflows@[w as int].1.0@[s as int].0@[l as int] == toks@[l as int]);
                            assert(has_refs(old(self).workflows@));
                        }
                        let ghost v = wfs_view(self.workflows@);
                        proof {
                            assert(v[w as int].1 == steps_view(self.workflows@[w as int].1));
                            assert(v[w as int].1[s as int] == svs(self.workflows@[w as int].1.0@[s as int].0@));
                            assert(is_ref(v, w as int, s as int, l as int));
                            assert forall|w2: int, s2: int, l2: int| #[trigger] is_ref(v, w2, s2, l2) implies w < w2 || (w == w2 && s
                                < s2) || (w == w2 && s == s2 && l <= l2) by {
                                assert(v[w2].1 == steps_view(self.workflows@[w2].1));
                                assert(v[w2].1[s2] == svs(self.workflows@[w2].1.0@[s2].0@));
                                assert(v[w2].1[s2][l2] == self.workflows@[w2].1.0@[s2].0@[l2]@);
                            }
                            assert(first_ref(v, w as int, s as int, l as int));
                        }
                        let (w2, s2, l2) = (w, s, l);
                        return self.substitute(w2, s2, l2);
                    }
                    l = l + 1;
                }
                s = s + 1;
            }
            w = w + 1;
        }
        Ok(false)
    }

    /// Replace token `l` of step `s` of workflow `w`, a `$name.index` token.
    fn substitute(&mut self, w: usize, s: usize, l: usize) -> (r: Result<bool, String>)
        requires
            is_ref(wfs_view(old(self).workflows@), w as int, s as int, l as int),
        ensures
            substituted(wfs_view(old(self).workflows@), w as int, s as int, l as int, r, wfs_view(final(self).workflows@)),
            final(self).version == old(self).version,
            final(self).help == old(self).help,
    {
        let ghost v = wfs_view(self.workflows@);
        proof {
            reveal_strlit("$");
            assert(v[w as int].1 == steps_view(self.workflows@[w as int].1));
            assert(v[w as int].1[s as int] == svs(self.workflows@[w as int].1.0@[s as int].0@));
        }
        let token = self.workflows[w].1.0[s].0[l].clone();
        let c = chars_of(token.as_str());
        assert(c@ == v[w as int].1[s as int][l as int]);
        assert(c@.len() >= 1);
        let mut rest: Vec<char> = Vec::new();
        let mut k: usize = 1;
        while k < c.len()
            invariant
                1 <= k <= c@.len(),
                rest@ == c@.subrange(1, k as int),
            decreases c@.len() - k,
        {
            proof {
                assert(c@.subrange(1, k as int + 1) =~= c@.subrange(1, k as int).push(c@[k as int]));
            }
            rest.push(c[k]);
            k = k + 1;
        }
        let line = string_of(&rest);
        assert(line@ =~= v[w as int].1[s as int][l as int].skip(1));
        let (name, index) = match split_once(line.as_str(), '.') {
            Some(p) => p,
            None => return Err(join2("Expecting $name.index in line ", line.as_str())),
        };
        let index = match read_index(index.as_str()) {
            Some(i) => i,
            None => return Err(join2("Failed to parse the index in line ", line.as_str())),
        };
        let target = match self.workflow(name.as_str()) {
            Some(t) => t,
            None => return Err(join2("Failed to find the workflow in line ", line.as_str())),
        };
        let ghost ti = choose|i: int| #[trigger] first_named(v, name@, i);
        proof {
            let i0 = choose|i: int| #[trigger] first_named(v, name@, i) && steps_view(target) == v[i].1;
            lemma_first_named_unique(v, name@, i0, ti);
        }
        if index >= target.0.len() {
            return Err(join2("No such step in line ", line.as_str()));
        }
        let insert = &target.0[index].0;
        let ghost ins = v[ti].1[index as int];
        assert(svs(insert@) == ins);
        let ghost wfs0 = self.workflows@;
        let mut entry: (String, Workflow) = (String::new(), Workflow(Vec::new()));
        self.workflows.set_and_swap(w, &mut entry);
        let mut steps = entry.1.0;
        let ghost steps0 = steps@;
        if s < steps.len() {
            let mut step = WorkflowStep(Vec::new());
            steps.set_and_swap(s, &mut step);
            let old_tokens = step.0;
            let ghost ot = svs(old_tokens@);
            assert(ot == v[w as int].1[s as int]);
            let mut tokens: Vec<String> = Vec::new();
            let mut k: usize = 0;
            while k < old_tokens.len()
                invariant
                    k <= old_tokens@.len(),
                    l < old_tokens@.len(),
                    ot == svs(old_tokens@),
                    ins == svs(insert@),
                    svs(tokens@) == (if k <= l {
                        ot.take(k as int)
                    } else {
                        ot.take(l as int) + ins + ot.subrange(l as int + 1, k as int)
                    }),
                decreases old_tokens@.len() - k,
            {
                if k == l {
                    let mut j: usize = 0;
                    assert(ins.take(0) =~= Seq::<Seq<char>>::empty());
                    assert(ot.take(l as int) + ins.take(0) =~= ot.take(l as int));
                    while j < insert.len()
                        invariant
                            j <= insert@.len(),
                            ins == svs(insert@),
                            svs(tokens@) == ot.take(l as int) + ins.take(j as int),
                        decreases insert@.len() - j,
                    {
                        let x = insert[j].clone();
                        proof {
                            assert(svs(tokens@.push(x)) =~= svs(tokens@).push(x@));
                            assert(ins.take(j as int + 1) =~= ins.take(j as int).push(ins[j as int]));
                        }
                        tokens.push(x);
                        j = j + 1;
                    }
                    assert(ins.take(ins.len() as int) =~= ins);
                    assert(ot.subrange(l as int + 1, l as int + 1) =~= Seq::<Seq<char>>::empty());
                    assert(ot.take(l as int) + ins =~= ot.take(l as int) + ins + ot.subrange(l as int + 1, k as int + 1));
                } else {
                    let x = old_tokens[k].clone();
                    proof {
                        assert(svs(tokens@.push(x)) =~= svs(tokens@).push(x@));
                        assert(x@ == ot[k as int]);
                        if k < l {
                            assert(ot.take(k as int + 1) =~= ot.take(k as int).push(ot[k as int]));
                        } else {
                            assert(ot.subrange(l as int + 1, k as int + 1) =~= ot.subrange(l as int + 1, k as int).push(ot[k as int]));
                        }
                    }
                    tokens.push(x);
                }
                k = k + 1;
            }
            assert(ot.subrange(l as int + 1, ot.len() as int) =~= ot.skip(l as int + 1));
            let ghost nt = svs(tokens@);
            let mut back = WorkflowStep(tokens);
            steps.set_and_swap(s, &mut back);
            assert(steps_of(steps@) =~= v[w as int].1.update(s as int, nt)) by {
                assert(steps@ == steps0.update(s as int, WorkflowStep(tokens)));
                assert forall|m: int| 0 <= m < steps@.len() && m != s implies steps_of(steps@)[m] == v[w as int].1[m] by {
                    assert(steps@[m] == steps0[m]);
                    assert(steps0 == wfs0[w as int].1.0@);
                }
            }
        }
        let ghost sv = steps_of(steps@);
        let mut back = (entry.0, Workflow(steps));
        self.workflows.set_and_swap(w, &mut back);
        proof {
            assert(wfs_view(self.workflows@) =~= v.update(w as int, (v[w as int].0, sv))) by {
                assert forall|m: int| 0 <= m < v.len() && m != w implies wfs_view(self.workflows@)[m] == v[m] by {
                    assert(self.workflows@[m] == wfs0[m]);
                }
            }
        }
        Ok(true)
    }

    /// Substitute references until none is left; an error after
    /// [MAX_RESOLVE_STEPS] substitutions, as the file then refers to itself.
    pub fn into_resolved(self) -> (r: Result<Self, String>)
        ensures
            r matches Ok(f) ==> !has_refs(f.workflows@),
            !has_refs(self.workflows@) ==> (r matches Ok(f) && f.workflows@ == self.workflows@),
    {
        let ghost start = self.workflows@;
        let mut me = self;
        let mut n: usize = 0;
        while n < MAX_RESOLVE_STEPS
            invariant
                start == self.workflows@,
                !has_refs(start) ==> me.workflows@ == start,
                n > 0 ==> has_refs(start),
            decreases MAX_RESOLVE_STEPS - n,
        {
            match me.resolve_once() {
                Ok(false) => return Ok(me),
                Ok(true) => {},
                Err(e) => return Err(e),
            }
            n = n + 1;
        }
        Err("Workflow references do not resolve; the file probably refers to itself".to_owned())
    }

    /// Whether the file can be read by a binary of version `current`: its
    /// format is `1.0.0` and it needs no newer binary.
    pub fn check_cfg_compatibility(&self, current: Semver) -> (r: Result<(), String>)
        ensures
            r is Ok == current.is_newer_or_equal_spec(self.version.binary),
    {
        if current.is_newer_or_equal(&self.version.binary) {
            Ok(())
        } else {
            let need = self.version.binary.to_string();
            let have = current.to_string();
            let m = join2("Config file version is too new. The file requires at least version ", need.as_str());
            let m = join2(m.as_str(), ", but the current version is ");
            let m = join2(m.as_str(), have.as_str());
            Err(join2(m.as_str(), ". Please update Zepter or ignore this check with `--check-cfg-compatibility=off`."))
        }
    }
}

/// A help text without its final line break; empty where it has none.
pub open spec fn help_body(t: Seq<char>) -> Seq<char> {
    if t.len() > 0 && t.last() == '\n' {
        t.drop_last()
    } else {
        Seq::empty()
    }
}

/// One line `  - link` for each link, each after a line break.
pub open spec fn link_lines(links: Seq<String>) -> Seq<char>
    decreases links.len(),
{
    if links.len() == 0 {
        Seq::empty()
    } else {
        link_lines(links.drop_last()) + "\n  - "@ + links.last()@
    }
}

/// The block of links under a help text: nothing without links.
pub open spec fn links_block(links: Seq<String>) -> Seq<char> {
    if links.len() == 0 {
        Seq::empty()
    } else {
        "\n\nFor more information, see:"@ + link_lines(links)
    }
}

} // verus!
