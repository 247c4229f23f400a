//! A symbol table with string keys: a trie with one branch for each
//! character of an alphabet of 256 characters.

use vstd::prelude::*;
use vstd::string::StrSliceExecFns;

verus! {

/// The size of the alphabet: keys hold characters below this code only.
pub const R: usize = 256;

type Link<T> = Option<Box<Node<T>>>;

#[derive(Debug)]
struct Node<T> {
    val: Option<T>,
    next: Vec<Link<T>>,
}

/// Every character of `key` is in the alphabet.
pub open spec fn in_alphabet(key: Seq<char>) -> bool {
    forall|i: int| 0 <= i < key.len() ==> (#[trigger] key[i] as int) < R
}

/// The value that the walk along `path` from the link ends at.
spec fn found<T>(link: Link<T>, path: Seq<char>) -> Option<T>
    decreases path.len(),
{
    match link {
        None => None,
        Some(node) => if path.len() == 0 {
            node.val
        } else if 0 <= (path[0] as int) < node.next@.len() {
            found(node.next@[path[0] as int], path.drop_first())
        } else {
            None
        },
    }
}

/// Every node that the walk along `path` from the link passes, the last
/// included, has a branch for each character of the alphabet.
spec fn full_along<T>(link: Link<T>, path: Seq<char>) -> bool
    decreases path.len(),
{
    match link {
        None => true,
        Some(node) => node.next@.len() == R && (path.len() > 0 && 0 <= (path[0] as int) < R
            ==> full_along(node.next@[path[0] as int], path.drop_first())),
    }
}

/// Every node has a branch for each character of the alphabet.
spec fn full<T>(link: Link<T>) -> bool {
    forall|path: Seq<char>| #[trigger] full_along(link, path)
}

fn new<T>() -> (link: Link<T>)
    ensures
        link is Some,
        full(link),
        forall|path: Seq<char>| #[trigger] found(link, path) is None,
{
    let mut this = Box::new(Node { val: None, next: Vec::with_capacity(R) });

    for i in 0..R
        invariant
            this.val is None,
            this.next@.len() == i,
            forall|j: int| 0 <= j < i ==> this.next@[j] is None,
    {
        this.next.push(None);
    }
    assert(this.next@.len() == R);
    assert(forall|j: int| 0 <= j < R ==> this.next@[j] is None);
    proof {
        let link = Some(this);
        assert forall|path: Seq<char>| #[trigger] found(link, path) is None by {
            if path.len() > 0 && 0 <= (path[0] as int) < R {
                assert(this.next@[path[0] as int] is None);
                assert(found(this.next@[path[0] as int], path.drop_first()) is None);
            }
        }
        assert forall|path: Seq<char>| #[trigger] full_along(link, path) by {
            if path.len() > 0 && 0 <= (path[0] as int) < R {
                assert(this.next@[path[0] as int] is None);
                assert(full_along(this.next@[path[0] as int], path.drop_first()));
            }
        }
    }

    Some(this)
}

fn get<'a, T>(link: &'a Link<T>, key: &str, d: usize) -> (r: &'a Link<T>)
    requires
        full(*link),
        in_alphabet(key@),
        d <= key@.len(),
    ensures
        match *r {
            Some(node) => found(*link, key@.skip(d as int)) == node.val,
            None => found(*link, key@.skip(d as int)) is None,
        },
    decreases key@.len() - d,
{
    let ghost rest = key@.skip(d as int);
    proof {
        assert(full_along(*link, rest));
    }
    if link.is_none() {
        link
    } else if d == key.unicode_len() {
        link
    } else {
        let c = key.get_char(d) as usize;
        let boxed_node = link.as_ref().unwrap();
        proof {
            assert(rest[0] == key@[d as int]);
            assert(rest.drop_first() =~= key@.skip(d + 1));
            lemma_full_below(*link, rest[0]);
        }
        get(&boxed_node.next[c], key, d + 1)
    }
}

/// Below a node of a trie with all its branches, every branch is such a
/// trie.
proof fn lemma_full_below<T>(link: Link<T>, c: char)
    requires
        full(link),
        link is Some,
        0 <= (c as int) < R,
    ensures
        link.unwrap().next@.len() == R,
        full(link.unwrap().next@[c as int]),
{
    let child = link.unwrap().next@[c as int];
    assert(full_along(link, Seq::empty()));
    assert forall|path: Seq<char>| #[trigger] full_along(child, path) by {
        let longer = seq![c] + path;
        assert(longer.drop_first() =~= path);
        assert(full_along(link, longer));
    }
}

fn put<T>(link: &mut Link<T>, key: &str, val: T, d: usize) -> (r: Link<T>)
    requires
        full(*old(link)),
        in_alphabet(key@),
        d <= key@.len(),
    ensures
        *final(link) is None,
        r is Some,
        full(r),
        forall|path: Seq<char>| #[trigger]
            found(r, path) == if path == key@.skip(d as int) {
                Some(val)
            } else {
                found(*old(link), path)
            },
    decreases key@.len() - d,
{
    let ghost before = *link;
    let ghost rest = key@.skip(d as int);
    let mut x = match link.take() {
        Some(boxed_node) => boxed_node,
        None => new().unwrap(),
    };
    let ghost base = Some(x);
    proof {
        assert forall|path: Seq<char>| #[trigger] found(base, path) == found(before, path) by {
            if before is None {
                assert(found(before, path) is None);
            }
        }
        assert(full_along(base, Seq::empty()));
    }

    if d == key.unicode_len() {
        x.val = Some(val);
        proof {
            let after = Some(x);
            assert(rest =~= Seq::empty());
            assert forall|path: Seq<char>| #[trigger]
                found(after, path) == if path == rest {
                    Some(val)
                } else {
                    found(before, path)
                } by {
                assert(found(base, path) == found(before, path));
                if path.len() == 0 {
                    assert(path =~= rest);
                }
            }
            assert forall|path: Seq<char>| #[trigger] full_along(after, path) by {
                assert(full_along(base, path));
            }
        }
    } else {
        let c = key.get_char(d) as usize;
        proof {
            assert(rest[0] == key@[d as int]);
            assert(rest.drop_first() =~= key@.skip(d + 1));
            lemma_full_below(base, rest[0]);
        }
        let ghost child = x.next@[c as int];
        let grown = put(&mut x.next[c], key, val, d + 1);
        x.next[c] = grown;
        proof {
            let after = Some(x);
            assert forall|path: Seq<char>| #[trigger]
                found(after, path) == if path == rest {
                    Some(val)
                } else {
                    found(before, path)
                } by {
                assert(found(base, path) == found(before, path));
                if path.len() > 0 && 0 <= (path[0] as int) < R {
                    if path[0] == rest[0] {
                        let tail = path.drop_first();
                        assert(found(grown, tail) == if tail == key@.skip(d + 1) {
                            Some(val)
                        } else {
                            found(child, tail)
                        });
                        if tail == key@.skip(d + 1) {
                            assert(path =~= seq![path[0]] + tail);
                            assert(rest =~= seq![rest[0]] + rest.drop_first());
                        }
                    } else {
                        assert(x.next@[path[0] as int] == base.unwrap().next@[path[0] as int]);
                    }
                }
            }
            assert forall|path: Seq<char>| #[trigger] full_along(after, path) by {
                assert(full_along(base, path));
                if path.len() > 0 && 0 <= (path[0] as int) < R {
                    if path[0] == rest[0] {
                        assert(full_along(grown, path.drop_first()));
                    } else {
                        assert(x.next@[path[0] as int] == base.unwrap().next@[path[0] as int]);
                    }
                }
            }
        }
    }

    Some(x)
}

/// A symbol table from strings over the alphabet to values.
#[derive(Debug)]
pub struct TrieST<T> {
    root: Link<T>,
}

impl<T> View for TrieST<T> {
    type V = Map<Seq<char>, T>;

    /// The keys that are bound, each with its value.
    closed spec fn view(&self) -> Map<Seq<char>, T> {
        Map::new(
            |key: Seq<char>| found(self.root, key) is Some,
            |key: Seq<char>| found(self.root, key).unwrap(),
        )
    }
}

impl<T> TrieST<T> {
    /// Every node has a branch for each character of the alphabet.
    pub closed spec fn wf(&self) -> bool {
        full(self.root)
    }

    /// An empty table.
    pub fn new() -> (trie: Self)
        ensures
            trie.wf(),
            trie@ == Map::<Seq<char>, T>::empty(),
    {
        let trie = TrieST { root: None };
        proof {
            assert forall|path: Seq<char>| #[trigger] full_along(trie.root, path) by {}
            assert(trie@ =~= Map::<Seq<char>, T>::empty());
        }
        trie
    }

    /// The value that `key` is bound to.
    pub fn get(&self, key: &str) -> (r: &Option<T>)
        requires
            self.wf(),
            in_alphabet(key@),
        ensures
            *r == if self@.contains_key(key@) {
                Some(self@[key@])
            } else {
                None
            },
    {
        proof {
            assert(key@.skip(0) =~= key@);
        }
        match get(&self.root, key, 0) {
            Some(boxed_node) => &boxed_node.val,
            None => &None,
        }
    }

    /// Binds `key` to `val`, in place of the value that `key` had, if any.
    pub fn put(&mut self, key: &str, val: T)
        requires
            old(self).wf(),
            in_alphabet(key@),
        ensures
            final(self).wf(),
            final(self)@ == old(self)@.insert(key@, val),
    {
        proof {
            assert(key@.skip(0) =~= key@);
        }
        self.root = put(&mut self.root, key, val, 0);
        proof {
            assert(self@ =~= old(self)@.insert(key@, val));
        }
    }
}

} // verus!
