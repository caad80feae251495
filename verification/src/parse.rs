//! Parsing of free-text add commands of the form "Add <Name> to <Department>".

use vstd::prelude::*;
use crate::text::str_eq;
use crate::text::tokenize;
use crate::text::tokens;
use crate::text::views_of;

verus! {

/// One scan over the tokens: "Add" captures the following token as the name,
/// "to" captures the following token as the department, any other token stops
/// the scan, and a keyword with nothing after it leaves its slot as it was.
pub open spec fn scan_tokens(toks: Seq<Seq<char>>, name: Seq<char>, dept: Seq<char>) -> (
    Seq<char>,
    Seq<char>,
)
    decreases toks.len(),
{
    if toks.len() == 0 {
        (name, dept)
    } else if toks[0] == "Add"@ {
        if toks.len() == 1 {
            (name, dept)
        } else {
            scan_tokens(toks.skip(2), toks[1], dept)
        }
    } else if toks[0] == "to"@ {
        if toks.len() == 1 {
            (name, dept)
        } else {
            scan_tokens(toks.skip(2), name, toks[1])
        }
    } else {
        (name, dept)
    }
}

/// What parsing an add command yields: the name and the department captured
/// from the whitespace-separated tokens of the raw text, both empty when the
/// keywords are missing.
pub open spec fn parse_add(s: Seq<char>) -> (Seq<char>, Seq<char>) {
    scan_tokens(tokens(s), Seq::empty(), Seq::empty())
}

/// Parses free text of the form "Add <Name> to <Department>" by scanning its
/// whitespace-separated tokens; missing keywords leave the captured slots as
/// empty strings.
pub fn get_name_and_department(input: &str) -> (r: (String, String))
    ensures
        (r.0@, r.1@) == parse_add(input@),
{
    let toks = tokenize(input);
    let mut name = String::new();
    let mut department = String::new();
    let mut i: usize = 0;
    proof {
        assert(views_of(toks@).skip(0) =~= views_of(toks@));
    }
    while i < toks.len()
        invariant
            i <= toks@.len(),
            views_of(toks@) == tokens(input@),
            parse_add(input@) == scan_tokens(views_of(toks@).skip(i as int), name@, department@),
        decreases toks@.len() - i,
    {
        let ghost tv = views_of(toks@);
        let ghost rest = tv.skip(i as int);
        proof {
            assert(rest.len() == tv.len() - i);
            assert(rest[0] == tv[i as int]);
            assert(tv[i as int] == toks@[i as int]@);
        }
        if str_eq(toks[i].as_str(), "Add") {
            if i + 1 < toks.len() {
                proof {
                    assert(rest[1] == tv[i + 1]);
                    assert(rest.skip(2) =~= tv.skip(i + 2));
                }
                name = toks[i + 1].clone();
                i = i + 2;
            } else {
                proof {
                    assert(rest.len() == 1);
                    assert(tv.skip(i + 1) =~= Seq::<Seq<char>>::empty());
                }
                i = i + 1;
            }
        } else if str_eq(toks[i].as_str(), "to") {
            if i + 1 < toks.len() {
                proof {
                    assert(rest[1] == tv[i + 1]);
                    assert(rest.skip(2) =~= tv.skip(i + 2));
                }
                department = toks[i + 1].clone();
                i = i + 2;
            } else {
                proof {
                    assert(rest.len() == 1);
                    assert(tv.skip(i + 1) =~= Seq::<Seq<char>>::empty());
                }
                i = i + 1;
            }
        } else {
            proof {
                assert(scan_tokens(rest, name@, department@) == (name@, department@));
                assert(tv.skip(toks@.len() as int) =~= Seq::<Seq<char>>::empty());
            }
            i = toks.len();
        }
    }
    proof {
        assert(views_of(toks@).skip(toks@.len() as int) =~= Seq::<Seq<char>>::empty());
    }
    (name, department)
}

} // verus!
