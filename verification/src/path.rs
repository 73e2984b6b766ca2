//! Slash-separated paths as text.
use vstd::prelude::*;

verus! {

/// The path of `name` as seen from `base`. An absolute `name` stands for itself;
/// any other is put below `base`, behind a slash unless `base` is empty or ends
/// in one.
pub open spec fn join_of(base: Seq<char>, name: Seq<char>) -> Seq<char> {
    if name.len() > 0 && name[0] == '/' {
        name
    } else if base.len() == 0 || base.last() == '/' {
        base + name
    } else {
        base + "/"@ + name
    }
}

/// The path reached from `base` by going down through `names`, one after another.
pub open spec fn descend(base: Seq<char>, names: Seq<Seq<char>>) -> Seq<char>
    decreases names.len(),
{
    if names.len() == 0 {
        base
    } else {
        join_of(descend(base, names.drop_last()), names.last())
    }
}

/// Returns the path of `name` as seen from `base`.
pub fn join(base: &str, name: &str) -> (path: String)
    ensures
        path@ == join_of(base@, name@),
        base@.len() > 0 && base@.last() != '/' && !(name@.len() > 0 && name@[0] == '/') ==> path@
            == base@.push('/') + name@,
        (base@.len() == 0 || base@.last() == '/') && !(name@.len() > 0 && name@[0] == '/') ==> path@
            == base@ + name@,
        name@.len() > 0 && name@[0] == '/' ==> path@ == name@,
{
    proof {
        law_join(base@, name@);
    }
    if !name.is_empty() && name.get_char(0) == '/' {
        return name.to_owned();
    }
    let n: usize = base.unicode_len();
    let mut path = base.to_owned();
    if n > 0 && base.get_char(n - 1) != '/' {
        path.append("/");
    }
    path.append(name);
    path
}

/// A name that is not absolute follows its base behind exactly one slash, or behind
/// nothing where the base is empty; an absolute one stands alone.
pub proof fn law_join(base: Seq<char>, name: Seq<char>)
    ensures
        name.len() > 0 && name[0] == '/' ==> join_of(base, name) == name,
        !(name.len() > 0 && name[0] == '/') && base.len() > 0 && base.last() != '/' ==> join_of(
            base,
            name,
        ) == base.push('/') + name,
        !(name.len() > 0 && name[0] == '/') && (base.len() == 0 || base.last() == '/') ==> join_of(
            base,
            name,
        ) == base + name,
{
    reveal_strlit("/");
    assert(base + "/"@ =~= base.push('/'));
}

/// Each of `names` preceded by a slash, one after another.
pub open spec fn slashed(names: Seq<Seq<char>>) -> Seq<char>
    decreases names.len(),
{
    if names.len() == 0 {
        Seq::empty()
    } else {
        slashed(names.drop_last()) + "/"@ + names.last()
    }
}

/// Going down through names that hold no slash, from a base that does not end in
/// one, appends each name behind a slash and changes nothing before it.
pub proof fn law_descend_appends(base: Seq<char>, names: Seq<Seq<char>>)
    requires
        base.len() > 0,
        base.last() != '/',
        forall|k: int| 0 <= k < names.len() ==> (#[trigger] names[k]).len() > 0,
        forall|k: int, i: int|
            0 <= k < names.len() && 0 <= i < names[k].len() ==> #[trigger] names[k][i] != '/',
    ensures
        descend(base, names) == base + slashed(names),
        descend(base, names).last() != '/',
    decreases names.len(),
{
    if names.len() > 0 {
        let front = names.drop_last();
        assert forall|k: int| 0 <= k < front.len() implies (#[trigger] front[k]).len() > 0 by {
            assert(front[k] == names[k]);
        }
        assert forall|k: int, i: int|
            0 <= k < front.len() && 0 <= i < front[k].len() implies #[trigger] front[k][i] != '/' by {
            assert(front[k][i] == names[k][i]);
        }
        law_descend_appends(base, front);
        let last = names.last();
        assert(names[names.len() - 1][0] != '/');
        assert(names[names.len() - 1][last.len() - 1] != '/');
        assert(base + slashed(front) + "/"@ + last =~= base + (slashed(front) + "/"@ + last));
    }
}

} // verus!
