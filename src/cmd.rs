//! The options shared by all commands and the pieces of their reports that do
//! not depend on the terminal.

use vstd::prelude::*;
use crate::grammar::plural;
use crate::text::join2;

verus! {

/// Whether to print hints on how to fix a finding.
#[derive(Debug, Clone, Copy, PartialEq, Eq, Structural)]
pub enum FixHint {
    /// Print a hint that is, hopefully, helpful.
    On,
    /// Print no hint at all.
    Off,
}

/// Options of every command.
#[derive(Debug, Clone)]
pub struct GlobalArgs {
    /// Only print errors.
    pub quiet: bool,
    /// The log level.
    pub level: String,
    /// Use ANSI terminal colors.
    pub color: bool,
    /// Exit with code zero even if a check failed.
    pub exit_code_zero: bool,
    pub fix_hint: FixHint,
}

/// `s` wrapped in the ANSI escape with parameter `code`, or `s` itself without
/// color.
pub open spec fn painted(color: bool, code: Seq<char>, s: Seq<char>) -> Seq<char> {
    if color {
        "\x1b["@ + code + "m"@ + s + "\x1b[0m"@
    } else {
        s
    }
}

fn paint(color: bool, code: &str, s: &str) -> (r: String)
    ensures
        r@ == painted(color, code@, s@),
{
    if !color {
        s.to_owned()
    } else {
        let a = join2("\x1b[", code);
        let a = join2(a.as_str(), "m");
        let a = join2(a.as_str(), s);
        join2(a.as_str(), "\x1b[0m")
    }
}

impl GlobalArgs {
    /// Whether hints are printed.
    pub fn show_hints(&self) -> (r: bool)
        ensures
            r == (self.fix_hint == FixHint::On),
    {
        match self.fix_hint {
            FixHint::On => true,
            FixHint::Off => false,
        }
    }

    /// The exit code for failed checks: 0 when asked for, else 1.
    pub fn error_code(&self) -> (r: i32)
        ensures
            r == (if self.exit_code_zero { 0i32 } else { 1i32 }),
    {
        if self.exit_code_zero {
            0
        } else {
            1
        }
    }

    pub fn red(&self, s: &str) -> (r: String)
        ensures
            r@ == painted(self.color, "31"@, s@),
    {
        paint(self.color, "31", s)
    }

    pub fn yellow(&self, s: &str) -> (r: String)
        ensures
            r@ == painted(self.color, "33"@, s@),
    {
        paint(self.color, "33", s)
    }

    pub fn green(&self, s: &str) -> (r: String)
        ensures
            r@ == painted(self.color, "32"@, s@),
    {
        paint(self.color, "32", s)
    }

    pub fn bold(&self, s: &str) -> (r: String)
        ensures
            r@ == painted(self.color, "1"@, s@),
    {
        paint(self.color, "1", s)
    }
}

/// Arguments that say how the metadata of the workspace is loaded.
#[derive(Debug, Clone, PartialEq, Eq)]
pub struct CargoArgs {
    /// The manifest path or directory.
    pub manifest_path: Option<String>,
    /// Only consider workspace crates.
    pub workspace: bool,
    pub offline: bool,
    pub locked: bool,
    pub all_features: bool,
}

impl CargoArgs {
    /// The same arguments with `workspace` set.
    pub fn with_workspace(self, workspace: bool) -> (r: Self)
        ensures
            r.workspace == workspace,
            r.manifest_path == self.manifest_path,
            r.offline == self.offline,
            r.locked == self.locked,
            r.all_features == self.all_features,
    {
        let mut s = self;
        s.workspace = workspace;
        s
    }
}

/// Whether a metadata error is the one about an outdated lock file with
/// `--locked`.
pub fn check_for_locked_error(err: &str) -> (r: bool)
    ensures
        r == has_text(err@, "needs to be updated but --locked was passed to prevent this"@),
{
    contains_text(err, "needs to be updated but --locked was passed to prevent this")
}

/// Whether `t` occurs in `s`.
pub open spec fn has_text(s: Seq<char>, t: Seq<char>) -> bool {
    exists|i: int| 0 <= i <= s.len() - t.len() && #[trigger] s.subrange(i, i + t.len()) == t
}

/// Whether `s` contains `t`.
pub fn contains_text(s: &str, t: &str) -> (r: bool)
    ensures
        r == has_text(s@, t@),
{
    let v = crate::text::chars_of(s);
    let w = crate::text::chars_of(t);
    if w.len() > v.len() {
        return false;
    }
    let vl = v.len();
    let mut i: usize = 0;
    while i <= v.len() - w.len()
        invariant
            vl == v@.len(),
            v@ == s@,
            w@ == t@,
            w@.len() <= v@.len(),
            i <= v@.len() - w@.len() + 1,
            forall|j: int| 0 <= j < i ==> #[trigger] s@.subrange(j, j + t@.len()) != t@,
        decreases v@.len() - w@.len() + 1 - i,
    {
        let mut k: usize = 0;
        let mut same = true;
        while k < w.len()
            invariant
                vl == v@.len(),
                v@ == s@,
                w@ == t@,
                w@.len() <= v@.len(),
                i <= v@.len() - w@.len(),
                k <= w@.len(),
                same == forall|m: int| 0 <= m < k ==> v@[i + m] == w@[m],
            decreases w@.len() - k,
        {
            if v[i + k] != w[k] {
                same = false;
            }
            k = k + 1;
        }
        if same {
            assert(s@.subrange(i as int, i + t@.len()) =~= t@);
            return true;
        }
        proof {
            if s@.subrange(i as int, i + t@.len()) == t@ {
                assert forall|m: int| 0 <= m < w@.len() implies v@[i + m] == w@[m] by {
                    assert(s@.subrange(i as int, i + t@.len())[m] == t@[m]);
                }
            }
        }
        i = i + 1;
    }
    false
}

/// The summary line of a lint run, or nothing when nothing was found or fixed.
pub fn error_stats(errors: usize, warnings: usize, fixes: usize, fix: bool, global: &GlobalArgs) -> (r: Option<String>)
    requires
        errors + warnings + fixes <= usize::MAX,
    ensures
        r is None <==> errors + warnings + fixes == 0,
{
    if errors + warnings + fixes == 0 {
        return None;
    }
    let mut ret = "Found ".to_owned();
    if errors > 0 {
        let n = usize_text(errors);
        let issues = join2(n.as_str(), " issue");
        let issues = join2(issues.as_str(), plural(errors));
        ret = join2(ret.as_str(), global.red(issues.as_str()).as_str());
    }
    if warnings > 0 {
        let n = usize_text(warnings);
        let w = join2(", ", n.as_str());
        let w = join2(w.as_str(), " warning");
        let w = join2(w.as_str(), plural(warnings));
        ret = join2(ret.as_str(), global.yellow(w.as_str()).as_str());
    }
    if fix {
        if warnings + errors > 0 {
            ret = join2(ret.as_str(), " and");
        }
        let n = usize_text(fixes);
        let fixed = join2(" fixed ", n.as_str());
        if fixes > 0 {
            ret = join2(ret.as_str(), global.green(fixed.as_str()).as_str());
            if fixes == warnings + errors {
                ret = join2(ret.as_str(), " (all fixed)");
            }
        } else {
            ret = join2(ret.as_str(), fixed.as_str());
        }
        if fixes < errors {
            let n = usize_text(errors - fixes);
            let c = join2(" (", n.as_str());
            let c = join2(c.as_str(), " could not be fixed)");
            ret = join2(ret.as_str(), global.red(c.as_str()).as_str());
        }
    } else if global.show_hints() {
        ret = join2(ret.as_str(), " (run with `--fix` to fix)");
    }
    Some(join2(ret.as_str(), "."))
}

/// The decimal digits of `n`.
pub open spec fn usize_digits(n: nat) -> Seq<char>
    decreases n,
{
    if n < 10 {
        seq![crate::semver::dchar(n as int)]
    } else {
        usize_digits(n / 10) + seq![crate::semver::dchar((n % 10) as int)]
    }
}

/// The decimal text of `n`.
pub fn usize_text(n: usize) -> (r: String)
    ensures
        r@ == usize_digits(n as nat),
    decreases n,
{
    if n < 10 {
        let c = crate::semver::digit_char(n as u8);
        let v: Vec<char> = vec![c];
        assert(v@ =~= seq![c]);
        crate::text::string_of(&v)
    } else {
        let head = usize_text(n / 10);
        let c = crate::semver::digit_char((n % 10) as u8);
        let v: Vec<char> = vec![c];
        assert(v@ =~= seq![c]);
        let tail = crate::text::string_of(&v);
        join2(head.as_str(), tail.as_str())
    }
}


/// The decimal text of `n`.
pub fn u64_text(n: u64) -> (r: String)
    ensures
        r@ == usize_digits(n as nat),
    decreases n,
{
    if n < 10 {
        let c = crate::semver::digit_char(n as u8);
        let v: Vec<char> = vec![c];
        assert(v@ =~= seq![c]);
        crate::text::string_of(&v)
    } else {
        let head = u64_text(n / 10);
        let c = crate::semver::digit_char((n % 10) as u8);
        let v: Vec<char> = vec![c];
        assert(v@ =~= seq![c]);
        let tail = crate::text::string_of(&v);
        join2(head.as_str(), tail.as_str())
    }
}

} // verus!
