//! Tab-completion support: the set of known command names gathered into the
//! trie, and the longest-common-prefix computation over completion
//! candidates.
//!
//! Nothing here scans the PATH directories itself: the caller hands in the
//! directory listing as part of the environment value, so the gathering
//! logic is a function of plain data.

use vstd::prelude::*;

use crate::command::{spec_builtin_of, ShellEnv, SpecShellEnv};
use crate::spec_is_prefix;
use crate::trie::{lemma_words_is_has_word, Trie};

verus! {

/// Whether `c` is a prefix of every listed string.
pub open spec fn spec_common_prefix(c: Seq<char>, strings: Seq<String>) -> bool {
    forall|k: int| 0 <= k < strings.len() ==> spec_is_prefix(c, (#[trigger] strings[k])@)
}

/// Whether `l` is the longest common prefix of the listed strings.
pub open spec fn spec_is_lcp(l: Seq<char>, strings: Seq<String>) -> bool {
    spec_common_prefix(l, strings) && (forall|c: Seq<char>|
        #[trigger] spec_common_prefix(c, strings) ==> c.len() <= l.len())
}

/// Whether `c` is a prefix of every word of the set.
pub open spec fn spec_common_of_set(c: Seq<char>, ws: Set<Seq<char>>) -> bool {
    forall|w: Seq<char>| #[trigger] ws.contains(w) ==> spec_is_prefix(c, w)
}

/// Whether `l` is the longest common prefix of the word set.
pub open spec fn spec_is_lcp_set(l: Seq<char>, ws: Set<Seq<char>>) -> bool {
    spec_common_of_set(l, ws) && (forall|c: Seq<char>|
        #[trigger] spec_common_of_set(c, ws) ==> c.len() <= l.len())
}

/// Whether the buffer holds a prefix of the string.
fn chars_prefix_of_str(p: &Vec<char>, s: &String) -> (r: bool)
    ensures
        r == spec_is_prefix(p@, s@),
{
    let np = p.len();
    let ns = s.as_str().unicode_len();
    if np > ns {
        return false;
    }
    let mut i: usize = 0;
    while i < np
        invariant
            i <= np,
            np == p.len(),
            np <= ns,
            ns == s@.len(),
            forall|k: int| 0 <= k < i ==> p@[k] == s@[k],
        decreases np - i,
    {
        if p[i] != s.as_str().get_char(i) {
            proof {
                assert(s@.take(np as int)[i as int] == s@[i as int]);
            }
            return false;
        }
        i = i + 1;
    }
    proof {
        assert(p@ =~= s@.take(np as int));
    }
    true
}

/// The longest common prefix of the given strings: nothing when the list
/// is empty, or when the prefix under construction shrank to nothing (which
/// happens exactly when the first string is non-empty yet no non-empty
/// common prefix exists); otherwise the unique common prefix no shorter
/// than every other.
pub fn longest_common_prefix(strings: &Vec<String>) -> (r: Option<String>)
    ensures
        match r {
            Some(l) => strings@.len() > 0 && spec_is_lcp(l@, strings@) && (l@.len() > 0
                || strings@[0]@.len() == 0),
            None => strings@.len() == 0 || (strings@[0]@.len() > 0 && (forall|c: Seq<char>|
                #[trigger] spec_common_prefix(c, strings@) ==> c.len() == 0)),
        },
{
    let n = strings.len();
    if n == 0 {
        return None;
    }
    let mut prefix = crate::str_to_chars(strings[0].as_str());
    let mut j: usize = 1;
    proof {
        assert forall|c: Seq<char>|
            #[trigger] spec_common_prefix(c, strings@.take(1)) implies c.len()
            <= prefix@.len() by {
            assert(strings@.take(1)[0] == strings@[0]);
            assert(spec_is_prefix(c, strings@[0]@));
        }
        assert(spec_common_prefix(prefix@, strings@.take(1))) by {
            assert(prefix@ =~= strings@[0]@.take(prefix@.len() as int));
        }
        assert(spec_is_prefix(prefix@, strings@[0]@)) by {
            assert(prefix@ =~= strings@[0]@.take(prefix@.len() as int));
        }
    }
    while j < n
        invariant
            1 <= j <= n,
            n == strings@.len(),
            spec_is_prefix(prefix@, strings@[0]@),
            prefix@.len() > 0 || strings@[0]@.len() == 0,
            spec_common_prefix(prefix@, strings@.take(j as int)),
            forall|c: Seq<char>|
                #[trigger] spec_common_prefix(c, strings@.take(j as int)) ==> c.len()
                    <= prefix@.len(),
        decreases n - j,
    {
        proof {
            assert forall|c: Seq<char>|
                #[trigger] spec_common_prefix(c, strings@.take(j + 1)) implies c.len()
                <= prefix@.len() by {
                assert forall|k: int|
                    0 <= k < j implies spec_is_prefix(
                    c,
                    (#[trigger] strings@.take(j as int)[k])@,
                ) by {
                    assert(strings@.take(j as int)[k] == strings@[k]);
                    assert(strings@.take(j + 1)[k] == strings@[k]);
                    assert(spec_is_prefix(c, strings@.take(j + 1)[k]@));
                }
                assert(spec_common_prefix(c, strings@.take(j as int)));
            }
        }
        while !chars_prefix_of_str(&prefix, &strings[j])
            invariant
                1 <= j < n,
                n == strings@.len(),
                spec_is_prefix(prefix@, strings@[0]@),
                prefix@.len() > 0 || strings@[0]@.len() == 0,
                spec_common_prefix(prefix@, strings@.take(j as int)),
                forall|c: Seq<char>|
                    #[trigger] spec_common_prefix(c, strings@.take(j + 1)) ==> c.len()
                        <= prefix@.len(),
            decreases prefix@.len(),
        {
            proof {
                if prefix@.len() == 0 {
                    assert(prefix@ =~= strings@[j as int]@.take(0));
                    assert(spec_is_prefix(prefix@, strings@[j as int]@));
                }
            }
            let ghost pre0 = prefix@;
            let _ = prefix.pop();
            proof {
                assert(pre0.len() > 0);
                assert(prefix@ =~= pre0.drop_last());
                assert(spec_is_prefix(prefix@, strings@[0]@)) by {
                    assert(prefix@ =~= strings@[0]@.take(prefix@.len() as int));
                }
                assert forall|k: int|
                    0 <= k < j implies spec_is_prefix(
                    prefix@,
                    (#[trigger] strings@.take(j as int)[k])@,
                ) by {
                    assert(strings@.take(j as int)[k] == strings@[k]);
                    assert(spec_is_prefix(pre0, strings@[k]@));
                    assert(prefix@ =~= strings@[k]@.take(prefix@.len() as int)) by {
                        assert(pre0 == strings@[k]@.take(pre0.len() as int));
                        assert forall|m: int| 0 <= m < prefix@.len() implies prefix@[m]
                            == strings@[k]@[m] by {
                            assert(prefix@[m] == pre0[m]);
                            assert(strings@[k]@.take(pre0.len() as int)[m] == strings@[k]@[m]);
                        }
                    }
                }
                assert(spec_common_prefix(prefix@, strings@.take(j as int)));
                assert forall|c: Seq<char>|
                    #[trigger] spec_common_prefix(c, strings@.take(j + 1)) implies c.len()
                    <= prefix@.len() by {
                    if c.len() > prefix@.len() {
                        assert(c.len() <= pre0.len());
                        assert(c.len() == pre0.len());
                        assert(strings@.take(j + 1)[0] == strings@[0]);
                        assert(spec_is_prefix(c, strings@[0]@));
                        assert(c =~= pre0) by {
                            assert(c == strings@[0]@.take(c.len() as int));
                            assert(pre0 == strings@[0]@.take(pre0.len() as int));
                        }
                        assert(strings@.take(j + 1)[j as int] == strings@[j as int]);
                        assert(spec_is_prefix(pre0, strings@[j as int]@));
                    }
                }
            }
            if prefix.is_empty() {
                proof {
                    assert(strings@[0]@.len() > 0);
                    assert forall|c: Seq<char>|
                        #[trigger] spec_common_prefix(c, strings@) implies c.len() == 0 by {
                        assert forall|k: int|
                            0 <= k < j + 1 implies spec_is_prefix(
                            c,
                            (#[trigger] strings@.take(j + 1)[k])@,
                        ) by {
                            assert(strings@.take(j + 1)[k] == strings@[k]);
                            assert(spec_is_prefix(c, strings@[k]@));
                        }
                        assert(spec_common_prefix(c, strings@.take(j + 1)));
                    }
                }
                return None;
            }
        }
        proof {
            assert forall|k: int|
                0 <= k < j + 1 implies spec_is_prefix(
                prefix@,
                (#[trigger] strings@.take(j + 1)[k])@,
            ) by {
                assert(strings@.take(j + 1)[k] == strings@[k]);
                if k < j {
                    assert(strings@.take(j as int)[k] == strings@[k]);
                    assert(spec_is_prefix(prefix@, strings@[k]@));
                }
            }
            assert(spec_common_prefix(prefix@, strings@.take(j + 1)));
        }
        j = j + 1;
    }
    proof {
        assert(strings@.take(n as int) =~= strings@);
    }
    Some(crate::chars_to_string(&prefix))
}

/// Whether `w` names an executable entry of some PATH directory.
pub open spec fn spec_is_path_name(env: SpecShellEnv, w: Seq<char>) -> bool {
    exists|a: int, b: int|
        0 <= a < env.path.len() && 0 <= b < env.path[a].executables.len() && (
        #[trigger] env.path[a].executables[b]) == w
}

/// Whether `w` names an executable entry of a PATH directory before `a`, or
/// one of the first `b` entries of directory `a` itself.
pub open spec fn spec_path_name_upto(env: SpecShellEnv, i: int, k: int, w: Seq<char>) -> bool {
    exists|a: int, b: int|
        0 <= a < env.path.len() && 0 <= b < env.path[a].executables.len() && (a < i || (a == i && b
            < k)) && (#[trigger] env.path[a].executables[b]) == w
}

/// Whether `w` is a known command name: a builtin, or an executable found
/// on the PATH search list.
pub open spec fn spec_known_command(env: SpecShellEnv, w: Seq<char>) -> bool {
    spec_builtin_of(w) is Some || spec_is_path_name(env, w)
}

/// Gather the set of known command names into a trie: every builtin, and
/// every executable entry of every PATH directory, and nothing else.
pub fn collect_all_commands(env: &ShellEnv) -> (t: Trie)
    ensures
        t.wf(),
        forall|w: Seq<char>| #[trigger] t.words().contains(w) <==> spec_known_command(env@, w),
{
    broadcast use lemma_words_is_has_word;

    let mut commands = Trie::new();
    commands.insert("echo");
    commands.insert("exit");
    commands.insert("type");
    commands.insert("history");
    commands.insert("pwd");
    commands.insert("cd");
    proof {
        crate::command::lemma_builtin_name_of(Seq::empty(), crate::command::BuiltinCommand::ECHO);
        assert forall|w: Seq<char>| #[trigger]
            commands.words().contains(w) <==> spec_builtin_of(w) is Some by {
            crate::command::lemma_builtin_name_of(w, crate::command::BuiltinCommand::ECHO);
        }
    }
    let ghost ev = env@;
    let np = env.path.len();
    let mut i: usize = 0;
    proof {
        assert forall|w: Seq<char>| #[trigger]
            commands.words().contains(w) <==> (spec_builtin_of(w) is Some
            || spec_path_name_upto(ev, 0, 0, w)) by {
            if spec_path_name_upto(ev, 0, 0, w) {
                let (a, b) = choose|a: int, b: int|
                    0 <= a < ev.path.len() && 0 <= b < ev.path[a].executables.len() && (a < 0 || (a
                        == 0 && b < 0)) && (#[trigger] ev.path[a].executables[b]) == w;
                assert(false);
            }
        }
    }
    while i < np
        invariant
            i <= np,
            np == env.path.len(),
            ev == env@,
            commands.wf(),
            forall|w: Seq<char>| #[trigger]
                commands.words().contains(w) <==> (spec_builtin_of(w) is Some
                    || spec_path_name_upto(ev, i as int, 0, w)),
        decreases np - i,
    {
        let nk = env.path[i].executables.len();
        let mut k: usize = 0;
        proof {
            assert(ev.path[i as int] == env.path@[i as int]@);
        }
        while k < nk
            invariant
                k <= nk,
                i < np,
                np == env.path.len(),
                nk == env.path@[i as int].executables.len(),
                ev == env@,
                commands.wf(),
                forall|w: Seq<char>| #[trigger]
                    commands.words().contains(w) <==> (spec_builtin_of(w) is Some
                        || spec_path_name_upto(ev, i as int, k as int, w)),
            decreases nk - k,
        {
            let ghost cmds0 = commands;
            commands.insert(env.path[i].executables[k].as_str());
            let ghost name = env.path@[i as int].executables@[k as int]@;
            proof {
                assert(ev.path[i as int] == env.path@[i as int]@);
                assert(ev.path[i as int].executables[k as int] == name);
                assert forall|w: Seq<char>| #[trigger]
                    commands.words().contains(w) <==> (spec_builtin_of(w) is Some
                    || spec_path_name_upto(ev, i as int, k + 1, w)) by {
                    if commands.words().contains(w) {
                        if w == name {
                            assert(0 <= i < ev.path.len() && 0 <= k
                                < ev.path[i as int].executables.len() && ((i as int) < i as int || (
                            i as int == i as int && (k as int) < k + 1)) && ev.path[
                            i as int].executables[k as int] == w);
                            assert(spec_path_name_upto(ev, i as int, k + 1, w));
                        } else {
                            assert(cmds0.words().contains(w));
                            if spec_path_name_upto(ev, i as int, k as int, w) {
                                let (a, b) = choose|a: int, b: int|
                                    0 <= a < ev.path.len() && 0 <= b
                                        < ev.path[a].executables.len() && (a < i as int || (a
                                        == i as int && b < k as int)) && (#[trigger] ev.path[
                                    a].executables[b]) == w;
                                assert(spec_path_name_upto(ev, i as int, k + 1, w));
                            }
                        }
                    } else {
                        if spec_path_name_upto(ev, i as int, k + 1, w) && !(spec_builtin_of(w)
                            is Some) {
                            let (a, b) = choose|a: int, b: int|
                                0 <= a < ev.path.len() && 0 <= b < ev.path[a].executables.len()
                                    && (a < i as int || (a == i as int && b < k + 1)) && (
                                #[trigger] ev.path[a].executables[b]) == w;
                            if a == i as int && b == k as int {
                                assert(w == name);
                            } else {
                                assert(spec_path_name_upto(ev, i as int, k as int, w));
                            }
                        }
                    }
                }
            }
            k = k + 1;
        }
        i = i + 1;
        proof {
            assert forall|w: Seq<char>| #[trigger]
                commands.words().contains(w) <==> (spec_builtin_of(w) is Some
                || spec_path_name_upto(ev, i as int, 0, w)) by {
                if commands.words().contains(w) && !(spec_builtin_of(w) is Some) {
                    let (a, b) = choose|a: int, b: int|
                        0 <= a < ev.path.len() && 0 <= b < ev.path[a].executables.len() && (a < i
                            - 1 || (a == i - 1 && b < nk as int)) && (#[trigger] ev.path[
                        a].executables[b]) == w;
                    assert(spec_path_name_upto(ev, i as int, 0, w));
                }
                if spec_path_name_upto(ev, i as int, 0, w) && !(spec_builtin_of(w) is Some) {
                    let (a, b) = choose|a: int, b: int|
                        0 <= a < ev.path.len() && 0 <= b < ev.path[a].executables.len() && (a < i
                            as int || (a == i as int && b < 0)) && (#[trigger] ev.path[
                        a].executables[b]) == w;
                    if a == i - 1 {
                        assert(ev.path[(i - 1) as int].executables.len() == nk);
                        assert(spec_path_name_upto(ev, (i - 1) as int, nk as int, w));
                    } else {
                        assert(spec_path_name_upto(ev, (i - 1) as int, nk as int, w));
                    }
                }
            }
        }
    }
    proof {
        assert forall|w: Seq<char>| #[trigger]
            commands.words().contains(w) <==> spec_known_command(ev, w) by {
            if spec_is_path_name(ev, w) {
                let (a, b) = choose|a: int, b: int|
                    0 <= a < ev.path.len() && 0 <= b < ev.path[a].executables.len() && (
                    #[trigger] ev.path[a].executables[b]) == w;
                assert(spec_path_name_upto(ev, np as int, 0, w));
            }
            if spec_path_name_upto(ev, np as int, 0, w) {
                let (a, b) = choose|a: int, b: int|
                    0 <= a < ev.path.len() && 0 <= b < ev.path[a].executables.len() && (a
                        < np as int || (a == np as int && b < 0)) && (#[trigger] ev.path[
                    a].executables[b]) == w;
                assert(spec_is_path_name(ev, w));
            }
        }
    }
    commands
}

} // verus!
