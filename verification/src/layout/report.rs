//! The export report tree: recorded values keyed by nested path
//! segments, ready to serialize.

use vstd::prelude::*;
use crate::data::tokenize::string_of;
use crate::layout::used_values::ReportValue;

verus! {

/// A nested report object: a recorded value, or children by key.
pub enum ReportTree {
    Leaf(ReportValue),
    Branch(Vec<(String, ReportTree)>),
}

/// The subtree stored under `key`, scanning front to back.
pub open spec fn branch_get(entries: Seq<(String, ReportTree)>, key: Seq<char>) -> Option<
    ReportTree,
>
    decreases entries.len(),
{
    if entries.len() == 0 {
        None
    } else if entries[0].0@ == key {
        Some(entries[0].1)
    } else {
        branch_get(entries.drop_first(), key)
    }
}

/// The node at a nested path.
pub open spec fn tree_get(t: ReportTree, path: Seq<Seq<char>>) -> Option<ReportTree>
    decreases path.len(),
{
    if path.len() == 0 {
        Some(t)
    } else {
        match t {
            ReportTree::Leaf(_) => None,
            ReportTree::Branch(entries) => match branch_get(entries@, path[0]) {
                None => None,
                Some(sub) => tree_get(sub, path.drop_first()),
            },
        }
    }
}

pub open spec fn path_model(path: Seq<String>) -> Seq<Seq<char>> {
    path.map_values(|s: String| s@)
}

/// The given path neither contains nor extends the other: it leads to
/// a node the other path's subtree does not cover.
pub open spec fn diverges(q: Seq<Seq<char>>, p: Seq<Seq<char>>) -> bool {
    !p.is_prefix_of(q) && !q.is_prefix_of(p)
}

impl ReportTree {
    /// An empty report.
    pub fn new() -> (t: ReportTree)
        ensures
            t matches ReportTree::Branch(entries) && entries@.len() == 0,
    {
        ReportTree::Branch(Vec::new())
    }

    /// Stores `value` at the nested path, creating branches on the way;
    /// whatever stood at that path is replaced, and every node off the
    /// path keeps its subtree.
    pub fn set(self, path: &Vec<String>, from: usize, value: ReportValue) -> (r: ReportTree)
        requires
            from <= path@.len(),
        ensures
            tree_get(r, path_model(path@).skip(from as int)) matches Some(node) && node
                matches ReportTree::Leaf(v) && v == value,
            forall|q: Seq<Seq<char>>|
                diverges(q, path_model(path@).skip(from as int)) ==> tree_get(r, q) == tree_get(
                    self,
                    q,
                ),
        decreases path@.len() - from,
    {
        let ghost pm = path_model(path@).skip(from as int);
        if from >= path.len() {
            proof {
                assert(pm =~= Seq::<Seq<char>>::empty());
                assert(forall|q: Seq<Seq<char>>| pm.is_prefix_of(q));
            }
            ReportTree::Leaf(value)
        } else {
            let key: &String = &path[from];
            let mut entries: Vec<(String, ReportTree)> = match self {
                ReportTree::Branch(entries) => entries,
                ReportTree::Leaf(_) => Vec::new(),
            };
            let ghost had_branch = self is Branch;
            let ghost orig = entries@;
            // find the child to descend into
            let mut j: usize = 0;
            while j < entries.len() && !(entries[j].0 == *key)
                invariant
                    j <= entries@.len(),
                    entries@ == orig,
                    forall|k: int| 0 <= k < j ==> (#[trigger] entries@[k]).0@ != key@,
                decreases entries@.len() - j,
            {
                j = j + 1;
            }
            let found: bool = j < entries.len();
            proof {
                if !found {
                    lemma_branch_get_none(orig, key@);
                }
            }
            let child: ReportTree = if found {
                let pair = entries.remove(j);
                pair.1
            } else {
                ReportTree::Branch(Vec::new())
            };
            let ghost old_child = child;
            let rebuilt = child.set(path, from + 1, value);
            if found {
                entries.insert(j, (key.clone(), rebuilt));
            } else {
                entries.push((key.clone(), rebuilt));
            }
            let r = ReportTree::Branch(entries);
            proof {
                assert(pm[0] == path@[from as int]@);
                assert(pm.drop_first() =~= path_model(path@).skip(from as int + 1));
                lemma_branch_get_at(entries@, key@, j as int);
                if found {
                    lemma_branch_get_at(orig, key@, j as int);
                    assert(forall|i: int|
                        0 <= i < orig.len() && i != j ==> #[trigger] entries@[i] == orig[i]);
                } else {
                    assert(forall|i: int|
                        0 <= i < orig.len() && i != j ==> #[trigger] entries@[i] == orig[i]);
                }
                assert forall|q: Seq<Seq<char>>| diverges(q, pm) implies tree_get(r, q)
                    == tree_get(self, q) by {
                    if q.len() == 0 {
                        assert(q.is_prefix_of(pm));
                    } else if q[0] != key@ {
                        lemma_branch_get_except(orig, entries@, j as int, key@, q[0]);
                        match branch_get(orig, q[0]) {
                            Some(sub) => {
                                assert(branch_get(entries@, q[0]) == Some(sub));
                                if !had_branch {
                                    assert(orig =~= Seq::<(String, ReportTree)>::empty());
                                }
                            },
                            None => {
                                if !had_branch {
                                    assert(orig =~= Seq::<(String, ReportTree)>::empty());
                                }
                            },
                        }
                    } else {
                        let q2 = q.drop_first();
                        // q diverges from the path below the shared head
                        assert(diverges(q2, pm.drop_first())) by {
                            if pm.drop_first().is_prefix_of(q2) {
                                assert forall|i: int| 0 <= i < pm.len() implies pm[i]
                                    == q.subrange(0, pm.len() as int)[i] by {
                                    if i > 0 {
                                        assert(pm[i] == pm.drop_first()[i - 1]);
                                        assert(pm.drop_first()[i - 1] == q2[i - 1]);
                                        assert(q2[i - 1] == q[i]);
                                    }
                                }
                                assert(pm =~= q.subrange(0, pm.len() as int));
                                assert(pm.is_prefix_of(q));
                            }
                            if q2.is_prefix_of(pm.drop_first()) {
                                assert forall|i: int| 0 <= i < q.len() implies q[i]
                                    == pm.subrange(0, q.len() as int)[i] by {
                                    if i > 0 {
                                        assert(q[i] == q2[i - 1]);
                                        assert(q2[i - 1] == pm.drop_first()[i - 1]);
                                        assert(pm.drop_first()[i - 1] == pm[i]);
                                    }
                                }
                                assert(q =~= pm.subrange(0, q.len() as int));
                                assert(q.is_prefix_of(pm));
                            }
                        }
                        assert(tree_get(rebuilt, q2) == tree_get(old_child, q2));
                        if found {
                            assert(tree_get(self, q) == tree_get(old_child, q2));
                        } else {
                            assert(q2.len() > 0) by {
                                if q2.len() == 0 {
                                    assert(q.is_prefix_of(pm)) by {
                                        assert(q =~= pm.subrange(0, 1));
                                    }
                                }
                            }
                            assert(tree_get(old_child, q2) is None);
                            if had_branch {
                                assert(tree_get(self, q) is None);
                            } else {
                                assert(tree_get(self, q) is None);
                            }
                        }
                    }
                }
            }
            r
        }
    }
}

/// A list with no entry under the key finds nothing.
proof fn lemma_branch_get_none(entries: Seq<(String, ReportTree)>, key: Seq<char>)
    requires
        forall|k: int| 0 <= k < entries.len() ==> (#[trigger] entries[k]).0@ != key,
    ensures
        branch_get(entries, key) is None,
    decreases entries.len(),
{
    if entries.len() > 0 {
        assert(forall|k: int|
            0 <= k < entries.len() - 1 ==> (#[trigger] entries.drop_first()[k]) == entries[k + 1]);
        lemma_branch_get_none(entries.drop_first(), key);
    }
}

/// Replacing or appending the entry under one key leaves lookups of
/// every other key unchanged.
proof fn lemma_branch_get_except(
    pre: Seq<(String, ReportTree)>,
    post: Seq<(String, ReportTree)>,
    j: int,
    kv: Seq<char>,
    k: Seq<char>,
)
    requires
        0 <= j < post.len(),
        post.len() == pre.len() || (post.len() == pre.len() + 1 && j == pre.len()),
        forall|i: int| 0 <= i < pre.len() && i != j ==> #[trigger] post[i] == pre[i],
        post[j].0@ == kv,
        j < pre.len() ==> pre[j].0@ == kv,
        k != kv,
    ensures
        branch_get(post, k) == branch_get(pre, k),
    decreases post.len(),
{
    if pre.len() == 0 {
        assert(post[j].0@ != k);
        if post.len() == 1 {
            assert(post.drop_first() =~= Seq::<(String, ReportTree)>::empty());
        }
    } else if j == 0 {
        assert(pre[0].0@ == kv);
        assert(post[0].0@ == kv);
        if post.len() == pre.len() {
            assert(post.drop_first() =~= pre.drop_first());
        }
    } else {
        assert(post[0] == pre[0]);
        if post[0].0@ != k {
            assert(forall|i: int|
                0 <= i < pre.len() - 1 && i != j - 1 ==> #[trigger] post.drop_first()[i]
                    == pre.drop_first()[i]);
            assert(post.drop_first()[j - 1] == post[j]);
            if j < pre.len() {
                assert(pre.drop_first()[j - 1] == pre[j]);
            }
            lemma_branch_get_except(pre.drop_first(), post.drop_first(), j - 1, kv, k);
        }
    }
}

/// The entry at a key-matching index with no earlier match is what
/// `branch_get` finds.
proof fn lemma_branch_get_at(entries: Seq<(String, ReportTree)>, key: Seq<char>, j: int)
    requires
        0 <= j < entries.len(),
        entries[j].0@ == key,
        forall|k: int| 0 <= k < j ==> (#[trigger] entries[k]).0@ != key,
    ensures
        branch_get(entries, key) == Some(entries[j].1),
    decreases j,
{
    if j > 0 {
        lemma_branch_get_at(entries.drop_first(), key, j - 1);
        assert(forall|k: int|
            0 <= k < j - 1 ==> (#[trigger] entries.drop_first()[k]) == entries[k + 1]);
    }
}

/// The decimal text of a number.
pub open spec fn dec_string(n: nat) -> Seq<char>
    decreases n,
{
    if n < 10 {
        seq![((48 + n) as u8) as char]
    } else {
        dec_string(n / 10) + seq![((48 + n % 10) as u8) as char]
    }
}

fn push_decimal(out: &mut Vec<char>, n: u64)
    ensures
        final(out)@ == old(out)@ + dec_string(n as nat),
    decreases n,
{
    if n < 10 {
        out.push((48 + (n as u8)) as char);
        proof {
            assert(out@ =~= old(out)@ + dec_string(n as nat));
        }
    } else {
        push_decimal(out, n / 10);
        out.push((48 + ((n % 10) as u8)) as char);
        proof {
            assert(out@ =~= old(out)@ + dec_string(n as nat));
        }
    }
}

/// The synthetic key of a reserved bitmap entry:
/// `reserved_<startBit>_<bits>`.
pub open spec fn reserved_key_spec(start: nat, bits: nat) -> Seq<char> {
    "reserved_"@ + dec_string(start) + "_"@ + dec_string(bits)
}

/// Builds the reserved-entry key text.
pub fn reserved_key(start: u8, bits: u8) -> (r: String)
    ensures
        r@ == reserved_key_spec(start as nat, bits as nat),
{
    let mut out: Vec<char> = Vec::new();
    proof {
        reveal_strlit("reserved_");
        reveal_strlit("_");
    }
    out.push('r');
    out.push('e');
    out.push('s');
    out.push('e');
    out.push('r');
    out.push('v');
    out.push('e');
    out.push('d');
    out.push('_');
    proof {
        assert(out@ =~= "reserved_"@);
    }
    push_decimal(&mut out, start as u64);
    out.push('_');
    proof {
        assert(out@ =~= "reserved_"@ + dec_string(start as nat) + "_"@);
    }
    push_decimal(&mut out, bits as u64);
    proof {
        assert(out@ =~= reserved_key_spec(start as nat, bits as nat));
    }
    string_of(&out)
}

} // verus!
