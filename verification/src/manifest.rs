//! The manifest: a line-oriented text format naming build commands and test
//! entries. Blank lines and `#` comments are ignored; a trimmed line that is
//! one identifier followed by a single `':'` opens the section of that name;
//! inside `build:` every line is a shell command; inside `test:` every line
//! holding a `':'` is a `name: command` entry; other sections are discarded.

use vstd::prelude::*;
use crate::strutil::{
    find_ch, find_char, is_space, is_space_char, split_lines, split_nl, str_eq, trim, trim_spec,
};
use vstd::string::*;

verus! {

/// One entry of the `test:` section: a display name and a shell command.
#[derive(Debug, Clone, PartialEq, Eq)]
pub struct TestSpec {
    pub name: String,
    pub command: String,
}

/// Everything a manifest declares: build commands and test entries, each in
/// file order.
#[derive(Debug, Clone, PartialEq, Eq)]
pub struct Manifest {
    pub build_commands: Vec<String>,
    pub test_specs: Vec<TestSpec>,
}

/// The section a parser position can be in.
#[derive(Clone, Copy, Debug)]
pub enum Section {
    Build,
    Test,
    Other,
}

/// The section a header line with the given stripped name opens.
pub open spec fn spec_section_of(name: Seq<char>) -> Section {
    if name == "build"@ {
        Section::Build
    } else if name == "test"@ {
        Section::Test
    } else {
        Section::Other
    }
}

/// A trimmed line the parser ignores: blank, or a `#` comment.
pub open spec fn spec_is_skip(t: Seq<char>) -> bool {
    t.len() == 0 || t[0] == '#'
}

/// A trimmed, non-ignored line that opens a section: one identifier — no
/// blanks, no further `':'` — followed by a single `':'`. The section's
/// name is the line without that colon.
pub open spec fn spec_is_header(t: Seq<char>) -> bool {
    t.len() >= 2 && t.last() == ':' && forall|k: int|
        0 <= k < t.len() - 1 ==> !is_space(t[k]) && t[k] != ':'
}

/// True exactly when the trimmed line opens a section.
pub fn is_header(t: &str) -> (r: bool)
    ensures
        r == spec_is_header(t@),
{
    let n = t.unicode_len();
    if n < 2 || t.get_char(n - 1) != ':' {
        return false;
    }
    let mut k: usize = 0;
    while k < n - 1
        invariant
            k <= n - 1,
            n == t@.len(),
            n >= 2,
            t@[n - 1] == ':',
            forall|j: int| 0 <= j < k ==> !is_space(t@[j]) && t@[j] != ':',
        decreases n - 1 - k,
    {
        let c = t.get_char(k);
        if is_space_char(c) || c == ':' {
            proof {
                assert(is_space(t@[k as int]) || t@[k as int] == ':');
            }
            return false;
        }
        k += 1;
    }
    true
}

/// The `name: command` reading of a trimmed test line, when it has a `':'`.
pub open spec fn spec_test_entry(t: Seq<char>) -> Option<(Seq<char>, Seq<char>)> {
    let i = find_ch(t, ':');
    if i >= 0 {
        Some((trim_spec(t.take(i)), trim_spec(t.skip(i + 1))))
    } else {
        None
    }
}

/// The build commands that parsing `lines` from section `sec` on yields.
pub open spec fn spec_builds(lines: Seq<Seq<char>>, sec: Section) -> Seq<Seq<char>>
    decreases lines.len(),
{
    if lines.len() == 0 {
        Seq::empty()
    } else {
        let t = trim_spec(lines[0]);
        let rest = lines.drop_first();
        if spec_is_skip(t) {
            spec_builds(rest, sec)
        } else if spec_is_header(t) {
            spec_builds(rest, spec_section_of(t.drop_last()))
        } else if sec is Build {
            seq![t] + spec_builds(rest, sec)
        } else {
            spec_builds(rest, sec)
        }
    }
}

/// The test entries that parsing `lines` from section `sec` on yields.
pub open spec fn spec_tests(lines: Seq<Seq<char>>, sec: Section) -> Seq<(Seq<char>, Seq<char>)>
    decreases lines.len(),
{
    if lines.len() == 0 {
        Seq::empty()
    } else {
        let t = trim_spec(lines[0]);
        let rest = lines.drop_first();
        if spec_is_skip(t) {
            spec_tests(rest, sec)
        } else if spec_is_header(t) {
            spec_tests(rest, spec_section_of(t.drop_last()))
        } else if sec is Test {
            match spec_test_entry(t) {
                Some(e) => seq![e] + spec_tests(rest, sec),
                None => spec_tests(rest, sec),
            }
        } else {
            spec_tests(rest, sec)
        }
    }
}

/// The model a manifest text parses to: its build commands and its test
/// entries, both starting outside any recognized section.
pub open spec fn spec_manifest(content: Seq<char>) -> (Seq<Seq<char>>, Seq<(Seq<char>, Seq<char>)>) {
    (
        spec_builds(split_nl(content), Section::Other),
        spec_tests(split_nl(content), Section::Other),
    )
}

/// The view of a parsed manifest, for comparison with `spec_manifest`.
pub open spec fn manifest_model(m: Manifest) -> (Seq<Seq<char>>, Seq<(Seq<char>, Seq<char>)>) {
    (
        m.build_commands@.map_values(|s: String| s@),
        m.test_specs@.map_values(|t: TestSpec| (t.name@, t.command@)),
    )
}

/// Parsing is a function of the text alone: two parses of the same manifest
/// text yield the same build commands and the same test entries, in the
/// same order.
pub proof fn lemma_parse_idempotent(
    content: Seq<char>,
    m1: Manifest,
    m2: Manifest,
)
    requires
        manifest_model(m1) == spec_manifest(content),
        manifest_model(m2) == spec_manifest(content),
    ensures
        manifest_model(m1) == manifest_model(m2),
{
}

/// The lines of `xs` joined with a single `'\n'` between neighbours.
pub open spec fn join_nl(xs: Seq<Seq<char>>) -> Seq<char>
    decreases xs.len(),
{
    if xs.len() == 0 {
        Seq::empty()
    } else if xs.len() == 1 {
        xs[0]
    } else {
        join_nl(xs.drop_last()) + seq!['\n'] + xs.last()
    }
}

/// Join the build commands into the one script handed to the shell, one
/// command per line.
pub fn join_lines(cmds: &Vec<String>) -> (r: String)
    ensures
        r@ == join_nl(cmds@.map_values(|s: String| s@)),
{
    let ghost m = cmds@.map_values(|s: String| s@);
    let mut out = String::new();
    let mut k: usize = 0;
    while k < cmds.len()
        invariant
            k <= cmds.len(),
            m == cmds@.map_values(|s: String| s@),
            out@ == join_nl(m.take(k as int)),
        decreases cmds.len() - k,
    {
        proof {
            reveal_strlit("\n");
            assert(m.take(k + 1).drop_last() =~= m.take(k as int));
            assert(m.take(k + 1).last() == m[k as int]);
            assert(m[k as int] == cmds@[k as int]@);
        }
        if k > 0 {
            out.append("\n");
            proof {
                assert("\n"@ =~= seq!['\n']);
            }
        } else {
            proof {
                assert(m.take(1)[0] == m[0]);
                assert(out@ =~= Seq::<char>::empty());
            }
        }
        out.append(cmds[k].as_str());
        proof {
            if k == 0 {
                assert(out@ =~= m[0]);
                assert(join_nl(m.take(1)) == m.take(1)[0]);
            } else {
                assert(out@ =~= join_nl(m.take(k as int)) + seq!['\n'] + m[k as int]);
            }
        }
        k += 1;
    }
    proof {
        assert(m.take(cmds@.len() as int) =~= m);
    }
    out
}

/// The section a header line with the given stripped name opens.
pub fn section_of(name: &str) -> (sec: Section)
    ensures
        sec == spec_section_of(name@),
{
    if str_eq(name, "build") {
        Section::Build
    } else if str_eq(name, "test") {
        Section::Test
    } else {
        Section::Other
    }
}

/// Parse a manifest text into its build commands and test entries.
pub fn parse_manifest(content: &str) -> (m: Manifest)
    ensures
        manifest_model(m) == spec_manifest(content@),
{
    let lines = split_lines(content);
    let ghost lseq = split_nl(content@);
    let mut sec = Section::Other;
    let mut builds: Vec<String> = Vec::new();
    let mut tests: Vec<TestSpec> = Vec::new();
    let mut idx: usize = 0;
    proof {
        assert(lseq.skip(0) =~= lseq);
        assert(builds@.map_values(|s: String| s@) + spec_builds(lseq, Section::Other)
            =~= spec_builds(lseq, Section::Other));
        assert(tests@.map_values(|t: TestSpec| (t.name@, t.command@)) + spec_tests(
            lseq,
            Section::Other,
        ) =~= spec_tests(lseq, Section::Other));
    }
    while idx < lines.len()
        invariant
            idx <= lines.len(),
            lseq == split_nl(content@),
            lines@.map_values(|t: String| t@) == lseq,
            builds@.map_values(|s: String| s@) + spec_builds(lseq.skip(idx as int), sec)
                == spec_builds(lseq, Section::Other),
            tests@.map_values(|t: TestSpec| (t.name@, t.command@)) + spec_tests(
                lseq.skip(idx as int),
                sec,
            ) == spec_tests(lseq, Section::Other),
        decreases lines.len() - idx,
    {
        proof {
            assert(lseq.skip(idx as int)[0] == lseq[idx as int]);
            assert(lseq.skip(idx as int).drop_first() =~= lseq.skip(idx + 1));
            assert(lines@.map_values(|t: String| t@)[idx as int] == lines@[idx as int]@);
        }
        let line = &lines[idx];
        let t = trim(line.as_str());
        let tlen = t.unicode_len();
        if tlen == 0 || t.get_char(0) == '#' {
            // blank line or comment: ignored
        } else if is_header(t) {
            let name = t.substring_char(0, tlen - 1);
            proof {
                assert(name@ =~= trim_spec(lseq[idx as int]).drop_last());
            }
            sec = section_of(name);
        } else {
            match sec {
                Section::Build => {
                    let ghost prev = builds@;
                    builds.push(t.to_owned());
                    proof {
                        assert(builds@.map_values(|s: String| s@) =~= prev.map_values(
                            |s: String| s@,
                        ) + seq![trim_spec(lseq[idx as int])]);
                    }
                },
                Section::Test => {
                    proof {
                        crate::strutil::lemma_find_ch(t@, ':');
                    }
                    match find_char(t, ':') {
                        Some(i) => {
                            let name = trim(t.substring_char(0, i));
                            let cmd = trim(t.substring_char(i + 1, tlen));
                            let ghost prev = tests@;
                            let entry = TestSpec { name: name.to_owned(), command: cmd.to_owned() };
                            tests.push(entry);
                            proof {
                                assert(tests@.map_values(|e: TestSpec| (e.name@, e.command@))
                                    =~= prev.map_values(|e: TestSpec| (e.name@, e.command@))
                                    + seq![spec_test_entry(trim_spec(lseq[idx as int]))->Some_0]);
                            }
                        },
                        None => {
                            // a test line without a ':' is silently dropped
                        },
                    }
                },
                Section::Other => {
                    // content of an unrecognized section: discarded
                },
            }
        }
        idx += 1;
    }
    proof {
        assert(lseq.skip(lines@.len() as int) =~= Seq::<Seq<char>>::empty());
        assert(builds@.map_values(|s: String| s@) + Seq::<Seq<char>>::empty() =~= builds@.map_values(
            |s: String| s@,
        ));
        assert(tests@.map_values(|t: TestSpec| (t.name@, t.command@)) + Seq::<(
            Seq<char>,
            Seq<char>,
        )>::empty() =~= tests@.map_values(|t: TestSpec| (t.name@, t.command@)));
    }
    Manifest { build_commands: builds, test_specs: tests }
}

} // verus!
