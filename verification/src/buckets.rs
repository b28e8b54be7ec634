//! Rate limits by API key and route.
use vstd::prelude::*;

use crate::text::same_text;

verus! {

/// Whose rate limit, and on which route.
pub type BucketKey = (Seq<char>, Seq<char>);

/// The rate limits, each with a bucket of type `B`. Each API key and route has one.
pub struct BucketTable<B> {
    keys: Vec<(String, String)>,
    buckets: Vec<B>,
}

/// What a [`BucketTable`] holds: whose buckets there are, and the buckets in the same order.
#[verifier::ext_equal]
pub struct BucketTableView<B> {
    pub keys: Seq<BucketKey>,
    pub buckets: Seq<B>,
}

/// Each key has its bucket, and no two buckets belong to the same API key and route.
pub open spec fn buckets_wf<B>(t: BucketTableView<B>) -> bool {
    &&& t.keys.len() == t.buckets.len()
    &&& forall|i: int, j: int|
        0 <= i < j < t.keys.len() ==> #[trigger] t.keys[i] != #[trigger] t.keys[j]
}

/// The place of a key among some keys, if it is there.
pub open spec fn place_of(keys: Seq<BucketKey>, key: BucketKey) -> Option<int> {
    if exists|i: int| 0 <= i < keys.len() && #[trigger] keys[i] == key {
        Some(choose|i: int| 0 <= i < keys.len() && #[trigger] keys[i] == key)
    } else {
        None
    }
}

/// The bucket of a key, if it has one.
pub open spec fn bucket_of<B>(t: BucketTableView<B>, key: BucketKey) -> Option<B> {
    match place_of(t.keys, key) {
        Some(i) => Some(t.buckets[i]),
        None => None,
    }
}

/// `after` is `before` with the bucket of `key` changed to `bucket`, or added behind all others.
pub open spec fn bucket_set<B>(
    before: BucketTableView<B>,
    after: BucketTableView<B>,
    key: BucketKey,
    bucket: B,
) -> bool {
    match place_of(before.keys, key) {
        Some(i) => {
            &&& after.keys =~= before.keys
            &&& after.buckets =~= before.buckets.update(i, bucket)
        },
        None => {
            &&& after.keys =~= before.keys.push(key)
            &&& after.buckets =~= before.buckets.push(bucket)
        },
    }
}

impl<B> View for BucketTable<B> {
    type V = BucketTableView<B>;

    closed spec fn view(&self) -> BucketTableView<B> {
        BucketTableView {
            keys: Seq::new(self.keys@.len(), |i: int| (self.keys@[i].0@, self.keys@[i].1@)),
            buckets: self.buckets@,
        }
    }
}

proof fn lemma_place_is<B>(t: BucketTableView<B>, key: BucketKey, i: int)
    requires
        buckets_wf(t),
        0 <= i < t.keys.len(),
        t.keys[i] == key,
    ensures
        place_of(t.keys, key) == Some(i),
{
    let c = choose|c: int| 0 <= c < t.keys.len() && #[trigger] t.keys[c] == key;
    if c < i {
        assert(t.keys[c] != t.keys[i]);
    }
    if i < c {
        assert(t.keys[i] != t.keys[c]);
    }
}

impl<B> BucketTable<B> {
    /// A table without buckets.
    pub fn new() -> (r: BucketTable<B>)
        ensures
            r@ == (BucketTableView { keys: Seq::<BucketKey>::empty(), buckets: Seq::<B>::empty() }),
            buckets_wf(r@),
    {
        let r = BucketTable { keys: Vec::new(), buckets: Vec::new() };
        assert(r@.keys =~= Seq::empty());
        assert(r@.buckets =~= Seq::empty());
        r
    }

    /// The number of buckets.
    pub fn len(&self) -> (r: usize)
        ensures
            r == self@.keys.len(),
    {
        self.keys.len()
    }

    fn place(&self, api_key: &str, path: &str) -> (r: Option<usize>)
        requires
            buckets_wf(self@),
        ensures
            match r {
                Some(i) => i < self@.keys.len() && place_of(self@.keys, (api_key@, path@)) == Some(
                    i as int,
                ),
                None => place_of(self@.keys, (api_key@, path@)) is None,
            },
    {
        let n: usize = self.keys.len();
        for i in 0..n
            invariant
                n == self.keys@.len(),
                n == self@.keys.len(),
                buckets_wf(self@),
                forall|k: int| 0 <= k < i ==> self@.keys[k] != (api_key@, path@),
        {
            assert(self@.keys[i as int] == (self.keys@[i as int].0@, self.keys@[i as int].1@));
            if same_text(self.keys[i].0.as_str(), api_key) && same_text(
                self.keys[i].1.as_str(),
                path,
            ) {
                proof {
                    lemma_place_is(self@, (api_key@, path@), i as int);
                }
                return Some(i);
            }
        }
        None
    }

    /// The bucket of an API key on a route, to be drawn from: the one it has, or `fresh` where it
    /// has none. What is drawn comes out of that bucket and of no other.
    pub fn bucket(&mut self, api_key: &str, path: &str, fresh: B) -> (r: &mut B)
        requires
            buckets_wf(old(self)@),
        ensures
            *r == (match bucket_of(old(self)@, (api_key@, path@)) {
                Some(b) => b,
                None => fresh,
            }),
            buckets_wf(final(self)@),
            bucket_set(old(self)@, final(self)@, (api_key@, path@), *final(r)),
    {
        let ghost before = self@;
        let i: usize = match self.place(api_key, path) {
            Some(i) => i,
            None => {
                let n: usize = self.keys.len();
                self.keys.push((String::from_str(api_key), String::from_str(path)));
                self.buckets.push(fresh);
                assert(self@.keys =~= before.keys.push((api_key@, path@)));
                n
            },
        };
        &mut self.buckets[i]
    }
}

/// A draw from the bucket of one API key on one route leaves every other bucket as it was, and a
/// bucket that is there stays, whatever fresh one was offered.
pub proof fn law_limits_are_independent<B>(
    before: BucketTableView<B>,
    after: BucketTableView<B>,
    key: BucketKey,
    bucket: B,
    other: BucketKey,
)
    requires
        buckets_wf(before),
        buckets_wf(after),
        bucket_set(before, after, key, bucket),
    ensures
        bucket_of(after, key) == Some(bucket),
        other != key ==> bucket_of(after, other) == bucket_of(before, other),
{
    match place_of(before.keys, key) {
        Some(i) => {
            lemma_place_is(after, key, i);
        },
        None => {
            lemma_place_is(after, key, before.keys.len() as int);
        },
    }
    if other != key {
        if exists|i: int| 0 <= i < before.keys.len() && #[trigger] before.keys[i] == other {
            let i = choose|i: int| 0 <= i < before.keys.len() && #[trigger] before.keys[i] == other;
            assert(after.keys[i] == other);
            lemma_place_is(before, other, i);
            lemma_place_is(after, other, i);
        } else {
            assert forall|i: int| 0 <= i < after.keys.len() implies #[trigger] after.keys[i]
                != other by {
                if i < before.keys.len() {
                    assert(before.keys[i] != other);
                }
            }
        }
    }
}

} // verus!
