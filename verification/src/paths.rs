use vstd::prelude::*;
use vstd::string::StrSliceExecFns;
use vstd::string::StringExecFns;

verus! {

/// Whether the text holds two consecutive dots, the parent-directory
/// marker that must never appear in a resolved path.
pub open spec fn has_dotdot(s: Seq<char>) -> bool {
    exists|k: int| 0 <= k && k + 2 <= s.len() && s[k] == '.' && #[trigger] s[k + 1] == '.'
}

pub fn contains_dotdot(s: &str) -> (r: bool)
    ensures
        r == has_dotdot(s@),
{
    let n: usize = s.unicode_len();
    if n < 2 {
        return false;
    }
    let mut i: usize = 0;
    while i < n - 1
        invariant
            2 <= n == s@.len(),
            i <= n - 1,
            forall|k: int| 0 <= k < i ==> !(s@[k] == '.' && #[trigger] s@[k + 1] == '.'),
        decreases n - i,
    {
        if s.get_char(i) == '.' && s.get_char(i + 1) == '.' {
            proof {
                assert(s@[i as int] == '.' && s@[i as int + 1] == '.');
            }
            return true;
        }
        i = i + 1;
    }
    proof {
        if has_dotdot(s@) {
            let k = choose|k: int|
                0 <= k && k + 2 <= s@.len() && s@[k] == '.' && #[trigger] s@[k + 1] == '.';
            assert(k < i);
            assert(!(s@[k] == '.' && s@[k + 1] == '.'));
        }
    }
    false
}

/// The display path of `name` under `root`, or `None` for a name that
/// tries to climb out of it.  The check reads the joined path, so a root
/// free of the marker admits exactly the names free of it.
pub fn join_under_root(root: &str, name: &str) -> (r: Option<String>)
    ensures
        has_dotdot(name@) ==> r is None,
        r matches Some(p) ==> p@ == root@ + seq!['/'] + name@ && !has_dotdot(
            root@ + seq!['/'] + name@,
        ),
        !has_dotdot(root@ + seq!['/'] + name@) ==> r is Some,
{
    let mut p = root.to_owned();
    p.append("/");
    p.append(name);
    proof {
        reveal_strlit("/");
        assert("/"@ =~= seq!['/']);
        assert(p@ == root@ + seq!['/'] + name@);
    }
    if contains_dotdot(p.as_str()) {
        None
    } else {
        proof {
            if has_dotdot(name@) {
                let k = choose|k: int|
                    0 <= k && k + 2 <= name@.len() && name@[k] == '.' && #[trigger] name@[k + 1]
                        == '.';
                let off = root@.len() + 1 + k;
                assert(p@[off] == name@[k]);
                assert(p@[off + 1] == name@[k + 1]);
                assert(has_dotdot(p@));
            }
        }
        Some(p)
    }
}

} // verus!
