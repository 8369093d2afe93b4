//! Command-line splitting: a typed command is broken at spaces into its
//! argument vector; an empty first word selects the built-in that does
//! nothing.
use vstd::prelude::*;

verus! {

/// The shell state a command may act on.
pub struct Shell {
    pub cwd: String,
}

impl Shell {
    pub fn new() -> (r: Shell)
        ensures
            r.cwd@ == "/"@,
    {
        Shell { cwd: String::from_str("/") }
    }
}

/// A parsed command line: the no-op built-in, or an external command
/// with its argument vector.
pub enum Command {
    Builtin,
    External(Vec<String>),
}

/// `parts` with `c` prepended to its first part.
pub open spec fn prepend_first(c: char, parts: Seq<Seq<char>>) -> Seq<Seq<char>> {
    seq![seq![c] + parts[0]] + parts.skip(1)
}

/// The words of `s` split at every space; splitting always yields at
/// least one (possibly empty) word.
pub open spec fn spec_split(s: Seq<char>) -> Seq<Seq<char>>
    decreases s.len(),
{
    if s.len() == 0 {
        seq![Seq::<char>::empty()]
    } else if s[0] == ' ' {
        seq![Seq::<char>::empty()] + spec_split(s.skip(1))
    } else {
        prepend_first(s[0], spec_split(s.skip(1)))
    }
}

/// Splitting yields at least one word.
pub proof fn lemma_split_nonempty(s: Seq<char>)
    ensures
        spec_split(s).len() >= 1,
    decreases s.len(),
{
    if s.len() > 0 {
        lemma_split_nonempty(s.skip(1));
    }
}

/// Split a command line at spaces. An empty first word (an empty line,
/// or one starting with a space) selects the built-in that does
/// nothing; anything else is an external command whose argument vector
/// is exactly the split.
pub fn parse(cmd: &str) -> (r: Command)
    ensures
        (spec_split(cmd@)[0].len() == 0 <==> r is Builtin),
        r matches Command::External(argv) ==> argv@.map_values(|t: String| t@) == spec_split(
            cmd@,
        ),
{
    let ghost s = cmd@;
    let n = cmd.unicode_len();
    let mut words: Vec<String> = Vec::new();
    let mut cur = String::new();
    let mut i: usize = 0;
    proof {
        lemma_split_nonempty(s);
        assert(s.skip(0) =~= s);
        assert(words@.map_values(|t: String| t@) =~= Seq::<Seq<char>>::empty());
        assert(prepend_first_whole(cur@, spec_split(s)) =~= spec_split(s));
    }
    while i < n
        invariant
            i <= n,
            n == s.len(),
            s == cmd@,
            spec_split(s) == words@.map_values(|t: String| t@) + prepend_first_whole(
                cur@,
                spec_split(s.skip(i as int)),
            ),
        decreases n - i,
    {
        let c = cmd.get_char(i);
        let ghost wpre = words@.map_values(|t: String| t@);
        let ghost cpre = cur@;
        proof {
            assert(s.skip(i as int)[0] == c);
            assert(s.skip(i as int).skip(1) =~= s.skip(i + 1));
            lemma_split_nonempty(s.skip(i + 1));
        }
        if c == 0x20 as char {
            let ghost pv = words@;
            words.push(cur);
            cur = String::new();
            proof {
                let wv = words@.map_values(|t: String| t@);
                assert forall|j: int| 0 <= j < wpre.len() implies wv[j] == wpre[j] by {
                    assert(words@[j] == pv[j]);
                }
                assert(wv[wpre.len() as int] == cpre);
                assert(wv =~= wpre.push(cpre));
                assert(spec_split(s.skip(i as int)) == seq![Seq::<char>::empty()] + spec_split(
                    s.skip(i + 1),
                ));
                assert(prepend_first_whole(cpre, spec_split(s.skip(i as int))) =~= seq![cpre]
                    + spec_split(s.skip(i + 1)));
                assert(prepend_first_whole(cur@, spec_split(s.skip(i + 1))) =~= spec_split(
                    s.skip(i + 1),
                ));
                assert(spec_split(s) =~= wv + prepend_first_whole(
                    cur@,
                    spec_split(s.skip(i + 1)),
                ));
            }
        } else {
            crate::strutil::push_char(&mut cur, c);
            proof {
                assert(spec_split(s.skip(i as int)) == prepend_first(
                    c,
                    spec_split(s.skip(i + 1)),
                ));
                let x = spec_split(s.skip(i + 1));
                assert(cpre + (seq![c] + x[0]) =~= cpre.push(c) + x[0]);
                assert(cur@ == cpre.push(c));
                assert(prepend_first(c, x).skip(1) =~= x.skip(1));
                assert(prepend_first_whole(cpre, prepend_first(c, x)) =~~= prepend_first_whole(
                    cur@,
                    x,
                ));
                assert(spec_split(s) =~= wpre + prepend_first_whole(
                    cur@,
                    spec_split(s.skip(i + 1)),
                ));
            }
        }
        i += 1;
    }
    proof {
        assert(s.skip(n as int).len() == 0);
        assert(prepend_first_whole(cur@, spec_split(s.skip(n as int))) =~= seq![cur@]);
    }
    let first_empty = if words.len() > 0 {
        words[0].as_str().is_empty()
    } else {
        cur.as_str().is_empty()
    };
    let ghost wpre = words@.map_values(|t: String| t@);
    let ghost cpre = cur@;
    let ghost pv = words@;
    words.push(cur);
    proof {
        let wv = words@.map_values(|t: String| t@);
        assert forall|j: int| 0 <= j < wpre.len() implies wv[j] == wpre[j] by {
            assert(words@[j] == pv[j]);
        }
        assert(wv[wpre.len() as int] == cpre);
        assert(wv =~= wpre.push(cpre));
        assert(wv =~= spec_split(s));
        assert(spec_split(s)[0].len() == 0 <==> first_empty);
    }
    if first_empty {
        Command::Builtin
    } else {
        Command::External(words)
    }
}

/// `parts` with `w` prepended to the whole of its first part.
pub open spec fn prepend_first_whole(w: Seq<char>, parts: Seq<Seq<char>>) -> Seq<Seq<char>> {
    seq![w + parts[0]] + parts.skip(1)
}


} // verus!
