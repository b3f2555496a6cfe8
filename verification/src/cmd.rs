use vstd::prelude::*;

pub mod add;
pub mod bdelete;
pub mod bhide;
pub mod blist;
pub mod bnew;
pub mod brename;
pub mod bset;
pub mod bunhide;
pub mod delete;
pub mod finalize;
pub mod fold;
pub mod hiding;
pub mod init;
pub mod list;
pub mod new;
pub mod pop;
pub mod push;
pub mod refresh;
pub mod remove;
pub mod reset;
pub mod resolve;
pub mod show;
pub mod unhide;
pub mod version;

verus! {

use vstd::string::StringExecFns;
use crate::error::Error;

/// What the engine reads of one commit: its identifier and its
/// parents' identifiers, in order.
#[derive(Debug)]
pub struct CommitInfo {
    pub id: String,
    pub parents: Vec<String>,
}

/// The views of a sequence of string slices.
pub open spec fn str_views(s: Seq<&str>) -> Seq<Seq<char>> {
    Seq::new(s.len(), |i: int| s[i]@)
}

/// The names of all options offered.
pub open spec fn option_names(s: Seq<(&str, bool)>) -> Seq<Seq<char>> {
    Seq::new(s.len(), |i: int| s[i].0@)
}

/// The names of the options that are switched on, in order.
pub open spec fn enabled_names(s: Seq<(&str, bool)>) -> Seq<Seq<char>>
    decreases s.len(),
{
    if s.len() == 0 {
        Seq::empty()
    } else if s[0].1 {
        seq![s[0].0@] + enabled_names(s.drop_first())
    } else {
        enabled_names(s.drop_first())
    }
}

pub proof fn lemma_enabled_names_push(s: Seq<(&str, bool)>, x: (&str, bool))
    ensures
        enabled_names(s.push(x)) == if x.1 {
            enabled_names(s).push(x.0@)
        } else {
            enabled_names(s)
        },
    decreases s.len(),
{
    let e = Seq::<(&str, bool)>::empty();
    if s.len() == 0 {
        assert(s.push(x)[0] == x);
        assert(s.push(x).drop_first() =~= e);
        assert(enabled_names(e) == Seq::<Seq<char>>::empty());
        if x.1 {
            assert(enabled_names(s.push(x)) =~= enabled_names(s).push(x.0@));
        }
    } else {
        assert(s.push(x).drop_first() =~= s.drop_first().push(x));
        assert(enabled_names(s.push(x).drop_first()) == enabled_names(s.drop_first().push(x)));
        lemma_enabled_names_push(s.drop_first(), x);
        assert(s.push(x)[0] == s[0]);
        if x.1 {
            if s[0].1 {
                assert(enabled_names(s.push(x)) =~= enabled_names(s).push(x.0@));
            } else {
                assert(enabled_names(s.push(x)) =~= enabled_names(s).push(x.0@));
            }
        }
    }
}

/// Text parts joined by a separator.
pub open spec fn joined(parts: Seq<Seq<char>>, sep: Seq<char>) -> Seq<char>
    decreases parts.len(),
{
    if parts.len() == 0 {
        Seq::empty()
    } else if parts.len() == 1 {
        parts[0]
    } else {
        parts[0] + sep + joined(parts.drop_first(), sep)
    }
}

pub proof fn lemma_joined_push(parts: Seq<Seq<char>>, sep: Seq<char>, x: Seq<char>)
    ensures
        joined(parts.push(x), sep) == if parts.len() == 0 {
            x
        } else {
            joined(parts, sep) + sep + x
        },
    decreases parts.len(),
{
    if parts.len() == 0 {
        assert(parts.push(x)[0] == x);
        assert(joined(parts.push(x), sep) == x);
    } else {
        assert(parts.push(x)[0] == parts[0]);
        assert(parts.push(x).drop_first() =~= parts.drop_first().push(x));
        assert(joined(parts.push(x).drop_first(), sep) == joined(
            parts.drop_first().push(x),
            sep,
        ));
        lemma_joined_push(parts.drop_first(), sep, x);
        if parts.len() == 1 {
            assert(joined(parts.push(x), sep) =~= joined(parts, sep) + sep + x);
        } else {
            assert(joined(parts.push(x), sep) =~= joined(parts, sep) + sep + x);
        }
    }
}

/// Joins string slices with a separator.
fn join(parts: &Vec<&str>, sep: &str) -> (r: String)
    ensures
        r@ == joined(str_views(parts@), sep@),
{
    let ghost pv = str_views(parts@);
    let mut r = String::new();
    let n: usize = parts.len();
    let mut i: usize = 0;
    proof {
        assert(pv.take(0) =~= Seq::<Seq<char>>::empty());
    }
    while i < n
        invariant
            0 <= i <= n,
            n == parts@.len(),
            pv == str_views(parts@),
            r@ == joined(pv.take(i as int), sep@),
        decreases n - i,
    {
        if i > 0 {
            r.append(sep);
        }
        r.append(parts[i]);
        proof {
            assert(pv.take(i + 1) =~= pv.take(i as int).push(pv[i as int]));
            lemma_joined_push(pv.take(i as int), sep@, pv[i as int]);
            assert(pv[i as int] == parts@[i as int]@);
        }
        i = i + 1;
    }
    proof {
        assert(pv.take(n as int) =~= pv);
    }
    r
}

/// The names of the options that are switched on.
pub fn enabled_options<'a>(options: &Vec<(&'a str, bool)>) -> (r: Vec<&'a str>)
    ensures
        str_views(r@) == enabled_names(options@),
{
    let ghost ov = options@;
    let mut r: Vec<&'a str> = Vec::new();
    let n: usize = options.len();
    let mut i: usize = 0;
    proof {
        assert(ov.take(0) =~= Seq::<(&str, bool)>::empty());
        assert(str_views(r@) =~= enabled_names(ov.take(0)));
    }
    while i < n
        invariant
            0 <= i <= n,
            n == options@.len(),
            ov == options@,
            str_views(r@) == enabled_names(ov.take(i as int)),
        decreases n - i,
    {
        let ghost r0 = r@;
        let (name, enabled) = options[i];
        if enabled {
            r.push(name);
        }
        proof {
            assert(ov.take(i + 1) =~= ov.take(i as int).push(ov[i as int]));
            lemma_enabled_names_push(ov.take(i as int), ov[i as int]);
            if enabled {
                assert(str_views(r@) =~= str_views(r0).push(ov[i as int].0@));
            } else {
                assert(str_views(r@) =~= str_views(r0));
            }
        }
        i = i + 1;
    }
    proof {
        assert(ov.take(n as int) =~= ov);
    }
    r
}

/// Fails unless at least one of the offered options is switched on;
/// the message lists every offered option.
pub fn missing_option(options: &Vec<(&str, bool)>) -> (r: Result<(), Error>)
    ensures
        match r {
            Ok(()) => enabled_names(options@).len() > 0,
            Err(e) => enabled_names(options@).len() == 0 && crate::error::is_precondition(
                e,
                "missing option: "@ + joined(option_names(options@), " or "@),
            ),
        },
{
    let enabled = enabled_options(options);
    if enabled.len() == 0 {
        let mut names: Vec<&str> = Vec::new();
        let n: usize = options.len();
        let mut i: usize = 0;
        proof {
            assert(str_views(names@) =~= option_names(options@).take(0));
        }
        while i < n
            invariant
                0 <= i <= n,
                n == options@.len(),
                str_views(names@) == option_names(options@).take(i as int),
            decreases n - i,
        {
            let ghost s0 = names@;
            let (name, _) = options[i];
            names.push(name);
            proof {
                assert(name@ == options@[i as int].0@);
                assert(str_views(names@) =~= str_views(s0).push(name@));
                assert(str_views(names@) =~= option_names(options@).take(i + 1));
            }
            i = i + 1;
        }
        proof {
            assert(option_names(options@).take(n as int) =~= option_names(options@));
        }
        let mut message = "missing option: ".to_owned();
        let tail = join(&names, " or ");
        message.append(tail.as_str());
        proof {
            assert(str_views(enabled@).len() == 0);
        }
        Err(Error::Precondition { message })
    } else {
        proof {
            assert(str_views(enabled@).len() > 0);
        }
        Ok(())
    }
}

/// Fails when more than one of the offered options is switched on;
/// the message lists the clashing options.
pub fn conflicting_options(options: &Vec<(&str, bool)>) -> (r: Result<(), Error>)
    ensures
        match r {
            Ok(()) => enabled_names(options@).len() <= 1,
            Err(e) => enabled_names(options@).len() > 1 && crate::error::is_precondition(
                e,
                "conflicting options: "@ + joined(enabled_names(options@), " and "@),
            ),
        },
{
    let enabled = enabled_options(options);
    if enabled.len() > 1 {
        let mut message = "conflicting options: ".to_owned();
        let tail = join(&enabled, " and ");
        message.append(tail.as_str());
        proof {
            assert(str_views(enabled@).len() > 1);
        }
        Err(Error::Precondition { message })
    } else {
        proof {
            assert(str_views(enabled@).len() <= 1);
        }
        Ok(())
    }
}

/// Fails unless exactly one of the offered options is switched on.
pub fn missing_or_conflicting_options(options: &Vec<(&str, bool)>) -> (r: Result<(), Error>)
    ensures
        match r {
            Ok(()) => enabled_names(options@).len() == 1,
            Err(e) => enabled_names(options@).len() != 1,
        },
{
    missing_option(options)?;
    conflicting_options(options)?;
    Ok(())
}

} // verus!
