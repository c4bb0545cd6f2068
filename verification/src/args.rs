//! Parsing of the command line: the subcommand name and the flags of the
//! examples query.

use vstd::prelude::*;
use crate::names::{names_seq, names_set, distinct_names, insert_name, lemma_names_set_contains};

verus! {

/// The four queries the tool answers.
pub enum Subcommand {
    Examples,
    Publish,
    Package,
    Directory,
}

/// Match a token against the four subcommand names.
pub fn parse_subcommand(tok: &String) -> (r: Option<Subcommand>)
    ensures
        match r {
            Some(Subcommand::Examples) => tok@ == "examples"@,
            Some(Subcommand::Publish) => tok@ == "publish"@,
            Some(Subcommand::Package) => tok@ == "package"@,
            Some(Subcommand::Directory) => tok@ == "directory"@,
            None => tok@ != "examples"@ && tok@ != "publish"@ && tok@ != "package"@ && tok@
                != "directory"@,
        },
{
    if *tok == String::from_str("examples") {
        Some(Subcommand::Examples)
    } else if *tok == String::from_str("publish") {
        Some(Subcommand::Publish)
    } else if *tok == String::from_str("package") {
        Some(Subcommand::Package)
    } else if *tok == String::from_str("directory") {
        Some(Subcommand::Directory)
    } else {
        None
    }
}

/// The fragments of `s` between runs of spaces, in order; empty fragments
/// do not appear.
pub open spec fn split_spaces(s: Seq<char>) -> Seq<Seq<char>>
    decreases s.len(),
{
    if s.len() == 0 {
        Seq::empty()
    } else {
        let r = split_spaces(s.drop_last());
        if s.last() == ' ' {
            r
        } else if s.len() >= 2 && s[s.len() - 2] != ' ' {
            r.update(r.len() - 1, r.last().push(s.last()))
        } else {
            r.push(seq![s.last()])
        }
    }
}

/// Split `s` on spaces, dropping empty fragments.
pub fn split_on_spaces(s: &String) -> (r: Vec<String>)
    ensures
        names_seq(r@) == split_spaces(s@),
{
    let sl = s.as_str();
    let len = sl.unicode_len();
    let mut r: Vec<String> = Vec::new();
    let mut start: usize = 0;
    let mut i: usize = 0;
    while i < len
        invariant
            sl@ == s@,
            len == s@.len(),
            start <= i <= len,
            forall|k: int| start <= k < i ==> s@[k] != ' ',
            start < i ==> split_spaces(s@.subrange(0, i as int)) == names_seq(r@).push(
                s@.subrange(start as int, i as int),
            ),
            start == i ==> split_spaces(s@.subrange(0, i as int)) == names_seq(r@),
            start == i && i > 0 ==> s@[i - 1] == ' ',
        decreases len - i,
    {
        let ghost i0 = i as int;
        let ghost start0 = start as int;
        let ghost pre = s@.subrange(0, i0);
        let ghost ext = s@.subrange(0, i0 + 1);
        proof {
            assert(ext.drop_last() =~= pre);
            assert(ext.last() == s@[i0]);
        }
        let c = sl.get_char(i);
        if c == ' ' {
            if start < i {
                let w = sl.substring_char(start, i).to_owned();
                let ghost r0 = r@;
                r.push(w);
                proof {
                    assert(names_seq(r@) =~= names_seq(r0).push(s@.subrange(start0, i0)));
                    assert(split_spaces(ext) == split_spaces(pre));
                    assert(split_spaces(ext) =~= names_seq(r@));
                }
            } else {
                proof {
                    assert(split_spaces(ext) == split_spaces(pre));
                }
            }
            start = i + 1;
        } else {
            proof {
                if start0 == i0 {
                    // a fragment begins here
                    if i0 >= 1 {
                        assert(ext[ext.len() - 2] == s@[i0 - 1]);
                        assert(s@[i0 - 1] == ' ');
                    }
                    assert(split_spaces(ext) == split_spaces(pre).push(seq![s@[i0]]));
                    assert(s@.subrange(start0, i0 + 1) =~= seq![s@[i0]]);
                } else {
                    // the fragment in progress grows by one character
                    assert(ext[ext.len() - 2] == s@[i0 - 1]);
                    assert(s@[i0 - 1] != ' ');
                    let prev = split_spaces(pre);
                    assert(prev == names_seq(r@).push(s@.subrange(start0, i0)));
                    assert(prev.len() == names_seq(r@).len() + 1);
                    assert(split_spaces(ext) == prev.update(
                        prev.len() - 1,
                        prev.last().push(s@[i0]),
                    ));
                    assert(prev.last() == s@.subrange(start0, i0));
                    assert(s@.subrange(start0, i0).push(s@[i0]) =~= s@.subrange(start0, i0 + 1));
                    assert(split_spaces(ext) =~= names_seq(r@).push(
                        s@.subrange(start0, i0 + 1),
                    ));
                }
            }
        }
        i = i + 1;
    }
    proof {
        assert(s@.subrange(0, len as int) =~= s@);
    }
    if start < len {
        let w = sl.substring_char(start, len).to_owned();
        let ghost r0 = r@;
        r.push(w);
        proof {
            assert(names_seq(r@) =~= names_seq(r0).push(s@.subrange(start as int, len as int)));
        }
    }
    r
}

/// The tokens form a valid examples invocation: any mix of the two flags
/// and of `--features` followed by a value.
pub open spec fn examples_args_ok(ts: Seq<String>) -> bool
    decreases ts.len(),
{
    if ts.len() == 0 {
        true
    } else if ts[0]@ == "--features"@ {
        ts.len() >= 2 && examples_args_ok(ts.skip(2))
    } else if ts[0]@ == "--no-default-features"@ || ts[0]@ == "--all-features"@ {
        examples_args_ok(ts.skip(1))
    } else {
        false
    }
}

/// Whether `--no-default-features` occurs as a flag (not as the value of
/// `--features`).
pub open spec fn spec_no_default(ts: Seq<String>) -> bool
    decreases ts.len(),
{
    if ts.len() == 0 {
        false
    } else if ts[0]@ == "--features"@ && ts.len() >= 2 {
        spec_no_default(ts.skip(2))
    } else {
        ts[0]@ == "--no-default-features"@ || spec_no_default(ts.skip(1))
    }
}

/// Whether `--all-features` occurs as a flag.
pub open spec fn spec_all(ts: Seq<String>) -> bool
    decreases ts.len(),
{
    if ts.len() == 0 {
        false
    } else if ts[0]@ == "--features"@ && ts.len() >= 2 {
        spec_all(ts.skip(2))
    } else {
        ts[0]@ == "--all-features"@ || spec_all(ts.skip(1))
    }
}

/// The names requested through `--features` values, split on spaces.
pub open spec fn spec_requested(ts: Seq<String>) -> Set<Seq<char>>
    decreases ts.len(),
{
    if ts.len() == 0 {
        Set::empty()
    } else if ts[0]@ == "--features"@ && ts.len() >= 2 {
        split_spaces(ts[1]@).to_set().union(spec_requested(ts.skip(2)))
    } else {
        spec_requested(ts.skip(1))
    }
}

/// The flags of an examples invocation.
pub struct ExamplesOpts {
    pub no_default: bool,
    pub all: bool,
    pub features: Vec<String>,
}

/// Parse the arguments of the examples query; `None` is a usage error.
pub fn parse_examples_args(args: &Vec<String>) -> (r: Option<ExamplesOpts>)
    ensures
        match r {
            Some(o) => examples_args_ok(args@) && o.no_default == spec_no_default(args@) && o.all
                == spec_all(args@) && distinct_names(o.features@) && names_set(o.features@)
                == spec_requested(args@),
            None => !examples_args_ok(args@),
        },
{
    broadcast use lemma_names_set_contains;

    let fl_features = String::from_str("--features");
    let fl_nd = String::from_str("--no-default-features");
    let fl_all = String::from_str("--all-features");
    let mut no_default = false;
    let mut all = false;
    let mut features: Vec<String> = Vec::new();
    proof {
        assert(args@.skip(0) =~= args@);
    }
    let mut i: usize = 0;
    while i < args.len()
        invariant
            i <= args@.len(),
            fl_features@ == "--features"@,
            fl_nd@ == "--no-default-features"@,
            fl_all@ == "--all-features"@,
            distinct_names(features@),
            examples_args_ok(args@) == examples_args_ok(args@.skip(i as int)),
            examples_args_ok(args@) ==> spec_no_default(args@) == (no_default || spec_no_default(
                args@.skip(i as int),
            )),
            examples_args_ok(args@) ==> spec_all(args@) == (all || spec_all(
                args@.skip(i as int),
            )),
            examples_args_ok(args@) ==> spec_requested(args@) == names_set(
                features@,
            ).union(spec_requested(args@.skip(i as int))),
        decreases args@.len() - i,
    {
        let ghost i0 = i as int;
        let ghost tail = args@.skip(i0);
        proof {
            reveal_strlit("--features");
            reveal_strlit("--no-default-features");
            reveal_strlit("--all-features");
            assert("--features"@.len() == 10);
            assert("--no-default-features"@.len() == 21);
            assert("--all-features"@.len() == 14);
            assert(tail[0] == args@[i0]);
            assert(tail.skip(1) =~= args@.skip(i0 + 1));
            if tail.len() >= 2 {
                assert(tail[1] == args@[i0 + 1]);
                assert(tail.skip(2) =~= args@.skip(i0 + 2));
            }
        }
        if args[i] == fl_features {
            if i + 1 >= args.len() {
                proof {
                    assert(!examples_args_ok(tail));
                }
                return None;
            }
            let parts = split_on_spaces(&args[i + 1]);
            let mut j: usize = 0;
            let ghost feats0 = features@;
            while j < parts.len()
                invariant
                    j <= parts@.len(),
                    distinct_names(features@),
                    names_set(features@) == names_set(feats0).union(
                        names_seq(parts@).subrange(0, j as int).to_set(),
                    ),
                decreases parts@.len() - j,
            {
                let ghost fpre = features@;
                let ghost j0 = j as int;
                insert_name(&mut features, parts[j].clone());
                proof {
                    assert(names_seq(parts@).subrange(0, j0 + 1) =~= names_seq(parts@).subrange(
                        0,
                        j0,
                    ).push(names_seq(parts@)[j0]));
                    names_seq(parts@).subrange(0, j0).lemma_push_to_set_commute(
                        names_seq(parts@)[j0],
                    );
                    assert(names_seq(parts@)[j0] == parts@[j0]@);
                    assert(names_set(features@) =~= names_set(feats0).union(
                        names_seq(parts@).subrange(0, j0 + 1).to_set(),
                    ));
                }
                j = j + 1;
            }
            proof {
                assert(names_seq(parts@).subrange(0, parts@.len() as int) =~= names_seq(parts@));
                assert(names_seq(parts@) == split_spaces(args@[i0 + 1]@));
                if examples_args_ok(args@) {
                    assert(examples_args_ok(tail) == examples_args_ok(tail.skip(2)));
                    assert(spec_requested(tail) == split_spaces(tail[1]@).to_set().union(
                        spec_requested(tail.skip(2)),
                    ));
                    assert(names_set(features@) =~= names_set(feats0).union(
                        split_spaces(tail[1]@).to_set(),
                    ));
                    assert(names_set(feats0).union(spec_requested(tail)) =~= names_set(
                        features@,
                    ).union(spec_requested(tail.skip(2))));
                }
            }
            i = i + 2;
        } else if args[i] == fl_nd {
            no_default = true;
            i = i + 1;
        } else if args[i] == fl_all {
            all = true;
            i = i + 1;
        } else {
            proof {
                assert(!examples_args_ok(tail));
            }
            return None;
        }
    }
    proof {
        assert(args@.skip(args@.len() as int) =~= Seq::<String>::empty());
        assert(examples_args_ok(Seq::<String>::empty()));
        if examples_args_ok(args@) {
            assert(names_set(features@).union(Set::empty()) =~= names_set(features@));
        }
    }
    Some(ExamplesOpts { no_default, all, features })
}

} // verus!
