//! The worklist of source files to parse: each file is handed out once, the
//! most recently queued first.

use vstd::prelude::*;

verus! {

/// The directory part of a path, as `std::path::PathBuf::pop` leaves it.
pub uninterp spec fn parent_path(p: Seq<char>) -> Seq<char>;

/// Relies on `std::path::PathBuf::pop`, which truncates a path to its parent;
/// the result depends on the path's text alone.
#[verifier::external_body]
fn parent_of(p: &String) -> (r: String)
    ensures
        r@ == parent_path(p@),
{
    let mut location = std::path::PathBuf::from(p);
    location.pop();
    location.to_string_lossy().into_owned()
}

/// Paths as plain values.
pub open spec fn paths_view(v: Seq<String>) -> Seq<Seq<char>> {
    v.map_values(|s: String| s@)
}

/// No path appears twice in the list.
pub open spec fn paths_distinct(v: Seq<Seq<char>>) -> bool {
    forall|i: int, j: int| 0 <= i < v.len() && 0 <= j < v.len() && i != j ==> v[i] != v[j]
}

/// Position of the last path on the stack that was not handed out yet, or -1.
pub open spec fn last_fresh(stack: Seq<Seq<char>>, done: Seq<Seq<char>>) -> int
    decreases stack.len(),
{
    if stack.len() == 0 {
        -1
    } else if !done.contains(stack.last()) {
        stack.len() - 1
    } else {
        last_fresh(stack.drop_last(), done)
    }
}

proof fn lemma_last_fresh_range(stack: Seq<Seq<char>>, done: Seq<Seq<char>>)
    ensures
        -1 <= last_fresh(stack, done) < stack.len(),
        last_fresh(stack, done) >= 0 ==> !done.contains(stack[last_fresh(stack, done)]),
    decreases stack.len(),
{
    if stack.len() > 0 {
        lemma_last_fresh_range(stack.drop_last(), done);
    }
}

/// Source files still to parse, and those already handed out.
pub struct FileStack {
    /// Directory of the file handed out last; relative paths start there.
    pub current_location: String,
    /// Files already handed out.
    pub black_paths: Vec<String>,
    /// Files still to visit; the last one is next.
    pub stack: Vec<String>,
}

fn contains_path(v: &Vec<String>, p: &String) -> (r: bool)
    ensures
        r == paths_view(v@).contains(p@),
{
    let mut i: usize = 0;
    while i < v.len()
        invariant
            0 <= i <= v@.len(),
            forall|j: int| 0 <= j < i ==> (#[trigger] v@[j])@ != p@,
        decreases v@.len() - i,
    {
        if v[i] == *p {
            proof {
                assert(paths_view(v@)[i as int] == p@);
            }
            return true;
        }
        i = i + 1;
    }
    proof {
        if paths_view(v@).contains(p@) {
            let j = choose|j: int| 0 <= j < paths_view(v@).len() && paths_view(v@)[j] == p@;
            assert(v@[j]@ == p@);
        }
    }
    false
}

impl FileStack {
    /// A worklist holding the main source file, with relative paths resolved
    /// against its directory.
    pub fn new(src: String) -> (r: FileStack)
        ensures
            r.current_location@ == parent_path(src@),
            paths_view(r.black_paths@) == Seq::<Seq<char>>::empty(),
            paths_distinct(paths_view(r.black_paths@)),
            paths_view(r.stack@) == seq![src@],
    {
        let location = parent_of(&src);
        let mut stack: Vec<String> = Vec::new();
        stack.push(src);
        proof {
            assert(paths_view(stack@) =~= seq![stack@[0]@]);
        }
        let r = FileStack { current_location: location, black_paths: Vec::new(), stack };
        proof {
            assert(paths_view(r.black_paths@) =~= Seq::<Seq<char>>::empty());
        }
        r
    }

    /// Queues a resolved path unless that file was already handed out.
    pub fn add_include(&mut self, path: String)
        ensures
            final(self).current_location == old(self).current_location,
            final(self).black_paths == old(self).black_paths,
            paths_view(final(self).stack@) == if paths_view(old(self).black_paths@).contains(path@) {
                paths_view(old(self).stack@)
            } else {
                paths_view(old(self).stack@).push(path@)
            },
    {
        if !contains_path(&self.black_paths, &path) {
            let ghost before = self.stack@;
            let ghost p = path@;
            self.stack.push(path);
            proof {
                assert(paths_view(self.stack@) =~= paths_view(before).push(p));
            }
        }
    }

    /// Hands out the most recently queued file that was not handed out yet,
    /// dropping the already-visited files above it; `None` once none is left.
    pub fn take_next(&mut self) -> (r: Option<String>)
        ensures
            ({
                let st = paths_view(old(self).stack@);
                let done = paths_view(old(self).black_paths@);
                let k = last_fresh(st, done);
                if k < 0 {
                    &&& r is None
                    &&& final(self).stack@.len() == 0
                    &&& final(self).black_paths == old(self).black_paths
                    &&& final(self).current_location == old(self).current_location
                } else {
                    &&& r is Some
                    &&& r->0@ == st[k]
                    &&& !done.contains(r->0@)
                    &&& paths_view(final(self).stack@) == st.subrange(0, k)
                    &&& paths_view(final(self).black_paths@) == done.push(st[k])
                    &&& final(self).current_location@ == parent_path(st[k])
                }
            }),
            paths_distinct(paths_view(old(self).black_paths@)) ==> paths_distinct(paths_view(final(self).black_paths@)),
    {
        let ghost st0 = paths_view(self.stack@);
        let ghost done = paths_view(self.black_paths@);
        proof {
            lemma_last_fresh_range(st0, done);
        }
        loop
            invariant
                paths_view(self.black_paths@) == done,
                self.black_paths == old(self).black_paths,
                self.current_location == old(self).current_location,
                self.stack@.len() <= st0.len(),
                paths_view(self.stack@) == st0.subrange(0, self.stack@.len() as int),
                last_fresh(paths_view(self.stack@), done) == last_fresh(st0, done),
                st0 == paths_view(old(self).stack@),
                done == paths_view(old(self).black_paths@),
            decreases self.stack@.len(),
        {
            let ghost cur = paths_view(self.stack@);
            proof {
                lemma_last_fresh_range(cur, done);
            }
            match self.stack.pop() {
                Some(file) => {
                    proof {
                        assert(cur.last() == file@);
                        assert(paths_view(self.stack@) =~= cur.drop_last());
                        assert(st0.subrange(0, self.stack@.len() as int) =~= cur.drop_last());
                    }
                    if !contains_path(&self.black_paths, &file) {
                        self.current_location = parent_of(&file);
                        let ghost b = self.black_paths@;
                        self.black_paths.push(file.clone());
                        proof {
                            assert(paths_view(self.black_paths@) =~= paths_view(b).push(file@));
                        }
                        return Some(file);
                    }
                },
                None => {
                    proof {
                        assert(cur =~= Seq::<Seq<char>>::empty());
                    }
                    return None;
                },
            }
        }
    }
}

} // verus!
