use vstd::prelude::*;

use crate::bus::{Bus, SubView};

verus! {

/// Mathematical view of a post: the UTF-8 bytes of the message, and the
/// client-supplied timestamp.
pub struct PostView {
    pub message: Seq<u8>,
    pub timestamp: int,
}

/// A single post: an immutable message (its UTF-8 bytes) and a client-supplied
/// timestamp (an integer count of epoch seconds; the server does not interpret
/// or rewrite it).
#[derive(Debug)]
pub struct Post {
    pub message: Vec<u8>,
    pub timestamp: i64,
}

impl View for Post {
    type V = PostView;

    open spec fn view(&self) -> PostView {
        PostView { message: self.message@, timestamp: self.timestamp as int }
    }
}

impl DeepView for Post {
    type V = PostView;

    open spec fn deep_view(&self) -> PostView {
        self@
    }
}

impl Clone for Post {
    fn clone(&self) -> (r: Self)
        ensures
            r@ == self@,
    {
        Post { message: copy_bytes(&self.message), timestamp: self.timestamp }
    }
}

/// Byte-for-byte copy of a buffer.
fn copy_bytes(v: &Vec<u8>) -> (r: Vec<u8>)
    ensures
        r@ == v@,
{
    let mut r: Vec<u8> = Vec::new();
    let mut i: usize = 0;
    while i < v.len()
        invariant
            i <= v.len(),
            r@ =~= v@.subrange(0, i as int),
        decreases v.len() - i,
    {
        r.push(v[i]);
        i = i + 1;
    }
    proof {
        assert(r@ =~= v@);
    }
    r
}

/// The canonical history: an ordered, append-only sequence of posts.
/// Entries are never removed, edited or reordered.
pub struct Log {
    posts: Vec<Post>,
}

impl View for Log {
    type V = Seq<PostView>;

    closed spec fn view(&self) -> Seq<PostView> {
        self.posts.deep_view()
    }
}

impl Log {
    /// An empty history.
    pub fn new() -> (r: Log)
        ensures
            r@ == Seq::<PostView>::empty(),
    {
        let r = Log { posts: Vec::new() };
        proof {
            assert(r@ =~= Seq::<PostView>::empty());
        }
        r
    }

    /// Place `post` at the end of the sequence; arrival order is kept.
    pub fn append(&mut self, post: Post)
        ensures
            final(self)@ == old(self)@.push(post@),
    {
        let ghost prev = self.posts.deep_view();
        let ghost pv = post@;
        self.posts.push(post);
        proof {
            assert(self.posts.deep_view() =~= prev.push(pv));
        }
    }

    /// An immutable view of all posts currently in the sequence, in order.
    /// Two snapshots with no append in between are the same sequence.
    pub fn snapshot(&self) -> (r: &Vec<Post>)
        ensures
            r.deep_view() == self@,
    {
        &self.posts
    }

    /// Number of posts in the history.
    pub fn len(&self) -> (r: usize)
        ensures
            r == self@.len(),
    {
        self.posts.len()
    }
}

/// The history after appending each element of `ps`, in order.
pub open spec fn log_after_appends(l: Seq<PostView>, ps: Seq<PostView>) -> Seq<PostView>
    decreases ps.len(),
{
    if ps.len() == 0 {
        l
    } else {
        log_after_appends(l.push(ps[0]), ps.drop_first())
    }
}

/// Order preservation: any number of successive appends leaves exactly the
/// old history followed by the appended posts, in arrival order — nothing
/// reordered, lost or duplicated. With the contract of `fetch_posts`, the
/// snapshot after those appends is the JSON array of exactly those posts.
pub proof fn lemma_order_preservation(l: Seq<PostView>, ps: Seq<PostView>)
    ensures
        log_after_appends(l, ps) == l + ps,
    decreases ps.len(),
{
    if ps.len() == 0 {
        assert(l + ps =~= l);
    } else {
        lemma_order_preservation(l.push(ps[0]), ps.drop_first());
        assert(l.push(ps[0]) + ps.drop_first() =~= l + ps);
    }
}

/// Per-subscriber queue capacity of the bus.
pub const BUS_CAPACITY: usize = 32;

/// Shared application state: the canonical history and the broadcast bus.
/// Created once at startup, handed to every handler.
pub struct AppState {
    pub messages: Log,
    pub updates: Bus,
}

impl AppState {
    /// The state is well formed whenever its bus is.
    pub open spec fn wf(self) -> bool {
        self.updates.wf()
    }

    /// Fresh state: an empty history, and a bus of the default capacity with
    /// no subscribers yet.
    pub fn new() -> (r: AppState)
        ensures
            r.wf(),
            r.messages@ == Seq::<PostView>::empty(),
            r.updates@.capacity == BUS_CAPACITY as nat,
            r.updates@.published == 0,
            r.updates@.subs == Seq::<SubView>::empty(),
    {
        AppState { messages: Log::new(), updates: Bus::new(BUS_CAPACITY) }
    }
}

} // verus!
