//! Grouping of catalog songs by artist, for presentation.
//!
//! Songs without a sequence number are left out. The rest are bucketed by artist,
//! compared case-insensitively; buckets are ordered by that lower-cased name, and the
//! songs of a bucket by lower-cased title, keeping the first of equal titles. A group
//! is shown under the artist name of its first song.

use vstd::prelude::*;

use crate::models::song::{group_views, song_views, Song, SongGroup, SongGroupView, SongView};
use crate::text::{chars_of, lemma_text_lt_asymmetric, lower_of, lowercase, text_less, text_lt};

verus! {

/// A song with the keys it is grouped and sorted by: the key of its artist and the key
/// of its title.
pub type Keyed = (SongView, Seq<char>, Seq<char>);

/// The key of a song's artist.
pub open spec fn artist_key(song: Keyed) -> Seq<char> {
    song.1
}

/// The key of a song's title.
pub open spec fn title_key(song: Keyed) -> Seq<char> {
    song.2
}

/// Inserts `x` into `sorted` after every song whose title key is not above its own.
pub open spec fn insert_by_title(sorted: Seq<Keyed>, x: Keyed) -> Seq<Keyed>
    decreases sorted.len(),
{
    if sorted.len() == 0 {
        seq![x]
    } else if text_lt(title_key(x), title_key(sorted.last())) {
        insert_by_title(sorted.drop_last(), x).push(sorted.last())
    } else {
        sorted.push(x)
    }
}

/// `songs` in order of title key; songs with equal keys keep their order.
pub open spec fn sort_by_title(songs: Seq<Keyed>) -> Seq<Keyed>
    decreases songs.len(),
{
    if songs.len() == 0 {
        songs
    } else {
        insert_by_title(sort_by_title(songs.drop_last()), songs.last())
    }
}

/// `songs` without each song whose title key equals that of the song kept before it.
pub open spec fn dedup_by_title(songs: Seq<Keyed>) -> Seq<Keyed>
    decreases songs.len(),
{
    if songs.len() == 0 {
        songs
    } else {
        let kept = dedup_by_title(songs.drop_last());
        if kept.len() > 0 && title_key(kept.last()) == title_key(songs.last()) {
            kept
        } else {
            kept.push(songs.last())
        }
    }
}

/// A bucket: an artist key and the songs under it, in catalog order.
pub type Bucket = (Seq<char>, Seq<Keyed>);

/// The first index from `i` on of the bucket with key `key`.
pub open spec fn find_bucket(buckets: Seq<Bucket>, key: Seq<char>, i: int) -> Option<int>
    decreases buckets.len() - i,
{
    if i < 0 || i >= buckets.len() {
        None
    } else if buckets[i].0 == key {
        Some(i)
    } else {
        find_bucket(buckets, key, i + 1)
    }
}

/// The songs with a sequence number, bucketed by artist key; buckets in the order in
/// which their first song comes.
pub open spec fn buckets_of(songs: Seq<Keyed>) -> Seq<Bucket>
    decreases songs.len(),
{
    if songs.len() == 0 {
        Seq::empty()
    } else {
        let buckets = buckets_of(songs.drop_last());
        let x = songs.last();
        if x.0.sequence_number.len() == 0 {
            buckets
        } else {
            match find_bucket(buckets, artist_key(x), 0) {
                Some(j) => buckets.update(j, (buckets[j].0, buckets[j].1.push(x))),
                None => buckets.push((artist_key(x), seq![x])),
            }
        }
    }
}

/// Inserts bucket `b` into `sorted` after every bucket whose key is not above its own.
pub open spec fn insert_bucket(sorted: Seq<Bucket>, b: Bucket) -> Seq<Bucket>
    decreases sorted.len(),
{
    if sorted.len() == 0 {
        seq![b]
    } else if text_lt(b.0, sorted.last().0) {
        insert_bucket(sorted.drop_last(), b).push(sorted.last())
    } else {
        sorted.push(b)
    }
}

/// `buckets` in order of key.
pub open spec fn sort_buckets(buckets: Seq<Bucket>) -> Seq<Bucket>
    decreases buckets.len(),
{
    if buckets.len() == 0 {
        buckets
    } else {
        insert_bucket(sort_buckets(buckets.drop_last()), buckets.last())
    }
}

/// The songs of a bucket as they are shown: sorted by title key, without repeated
/// titles.
pub open spec fn finish_bucket(b: Bucket) -> Seq<Keyed> {
    dedup_by_title(sort_by_title(b.1))
}

/// The songs of each group, groups in order of artist key.
pub open spec fn grouped_keyed(songs: Seq<Keyed>) -> Seq<Seq<Keyed>> {
    sort_buckets(buckets_of(songs)).map_values(|b: Bucket| finish_bucket(b))
}

/// The songs of `groups`, one group after the other.
pub open spec fn flatten_keyed(groups: Seq<Seq<Keyed>>) -> Seq<Keyed>
    decreases groups.len(),
{
    if groups.len() == 0 {
        Seq::empty()
    } else {
        flatten_keyed(groups.drop_last()) + groups.last()
    }
}

/// Whether no song of `songs` has a title key below that of the song before it.
pub open spec fn titles_sorted(songs: Seq<Keyed>) -> bool {
    forall|i: int|
        #![trigger songs[i]]
        0 < i < songs.len() ==> !text_lt(title_key(songs[i]), title_key(songs[i - 1]))
}

/// Whether no two neighbouring songs of `songs` have the same title key.
pub open spec fn titles_distinct(songs: Seq<Keyed>) -> bool {
    forall|i: int|
        #![trigger songs[i]]
        0 < i < songs.len() ==> title_key(songs[i]) != title_key(songs[i - 1])
}

proof fn lemma_push_contains<T>(s: Seq<T>, a: T, y: T)
    ensures
        s.push(a).contains(y) <==> (s.contains(y) || y == a),
{
    if s.contains(y) {
        let i = choose|i: int| 0 <= i < s.len() && s[i] == y;
        assert(s.push(a)[i] == y);
    }
    if y == a {
        assert(s.push(a)[s.len() as int] == y);
    }
    if s.push(a).contains(y) {
        let i = choose|i: int| 0 <= i < s.push(a).len() && s.push(a)[i] == y;
        if i < s.len() {
            assert(s[i] == y);
        }
    }
}

proof fn lemma_drop_last_contains<T>(s: Seq<T>, y: T)
    requires
        s.len() > 0,
    ensures
        s.contains(y) <==> (s.drop_last().contains(y) || y == s.last()),
{
    assert(s =~= s.drop_last().push(s.last()));
    lemma_push_contains(s.drop_last(), s.last(), y);
}

proof fn lemma_insert_by_title(sorted: Seq<Keyed>, x: Keyed)
    ensures
        insert_by_title(sorted, x).len() == sorted.len() + 1,
        forall|y: Keyed|
            #[trigger] insert_by_title(sorted, x).contains(y) <==> (sorted.contains(y) || y == x),
        insert_by_title(sorted, x).last() == x || (sorted.len() > 0 && insert_by_title(
            sorted,
            x,
        ).last() == sorted.last()),
        titles_sorted(sorted) ==> titles_sorted(insert_by_title(sorted, x)),
    decreases sorted.len(),
{
    let r = insert_by_title(sorted, x);
    if sorted.len() == 0 {
        assert forall|y: Keyed| #[trigger] r.contains(y) <==> (sorted.contains(y) || y == x) by {
            lemma_push_contains(sorted, x, y);
            assert(r =~= sorted.push(x));
        }
    } else if text_lt(title_key(x), title_key(sorted.last())) {
        let rest = sorted.drop_last();
        lemma_insert_by_title(rest, x);
        let inner = insert_by_title(rest, x);
        assert forall|y: Keyed| #[trigger] r.contains(y) <==> (sorted.contains(y) || y == x) by {
            lemma_push_contains(inner, sorted.last(), y);
            lemma_drop_last_contains(sorted, y);
        }
        if titles_sorted(sorted) {
            assert(titles_sorted(rest)) by {
                assert forall|i: int| 0 < i < rest.len() implies !text_lt(
                    title_key(#[trigger] rest[i]),
                    title_key(rest[i - 1]),
                ) by {
                    assert(rest[i] == sorted[i] && rest[i - 1] == sorted[i - 1]);
                }
            }
            lemma_text_lt_asymmetric(title_key(x), title_key(sorted.last()));
            if rest.len() > 0 {
                assert(sorted[rest.len() as int] == sorted.last());
                assert(sorted[rest.len() - 1] == rest.last());
            }
            assert forall|i: int| 0 < i < r.len() implies !text_lt(
                title_key(#[trigger] r[i]),
                title_key(r[i - 1]),
            ) by {
                if i < r.len() - 1 {
                    assert(r[i] == inner[i] && r[i - 1] == inner[i - 1]);
                } else {
                    assert(r[i - 1] == inner.last());
                }
            }
        }
    } else {
        assert forall|y: Keyed| #[trigger] r.contains(y) <==> (sorted.contains(y) || y == x) by {
            lemma_push_contains(sorted, x, y);
        }
        if titles_sorted(sorted) {
            assert forall|i: int| 0 < i < r.len() implies !text_lt(
                title_key(#[trigger] r[i]),
                title_key(r[i - 1]),
            ) by {
                if i < r.len() - 1 {
                    assert(r[i] == sorted[i] && r[i - 1] == sorted[i - 1]);
                }
            }
        }
    }
}

/// Sorting by title keeps the songs, and puts them in order.
pub proof fn lemma_sort_by_title(songs: Seq<Keyed>)
    ensures
        sort_by_title(songs).len() == songs.len(),
        forall|y: Keyed| #[trigger] sort_by_title(songs).contains(y) <==> songs.contains(y),
        titles_sorted(sort_by_title(songs)),
    decreases songs.len(),
{
    if songs.len() > 0 {
        lemma_sort_by_title(songs.drop_last());
        lemma_insert_by_title(sort_by_title(songs.drop_last()), songs.last());
        assert forall|y: Keyed| #[trigger] sort_by_title(songs).contains(y) <==> songs.contains(
            y,
        ) by {
            lemma_drop_last_contains(songs, y);
        }
    }
}

/// Songs already in title order are left as they are by sorting.
pub proof fn lemma_sort_by_title_sorted(songs: Seq<Keyed>)
    requires
        titles_sorted(songs),
    ensures
        sort_by_title(songs) == songs,
    decreases songs.len(),
{
    if songs.len() > 0 {
        let rest = songs.drop_last();
        assert(titles_sorted(rest)) by {
            assert forall|i: int| 0 < i < rest.len() implies !text_lt(
                title_key(#[trigger] rest[i]),
                title_key(rest[i - 1]),
            ) by {
                assert(rest[i] == songs[i] && rest[i - 1] == songs[i - 1]);
            }
        }
        lemma_sort_by_title_sorted(rest);
        if rest.len() > 0 {
            assert(songs[songs.len() - 1] == songs.last());
            assert(songs[songs.len() - 2] == rest.last());
        }
        assert(songs =~= rest.push(songs.last()));
    }
}

/// Removing repeated titles keeps some of the songs, the first one among them, and
/// leaves no two neighbours with one title; it keeps title order.
pub proof fn lemma_dedup_by_title(songs: Seq<Keyed>)
    ensures
        forall|y: Keyed| #[trigger] dedup_by_title(songs).contains(y) ==> songs.contains(y),
        titles_distinct(dedup_by_title(songs)),
        songs.len() > 0 ==> dedup_by_title(songs).len() > 0 && dedup_by_title(songs)[0]
            == songs[0] && title_key(dedup_by_title(songs).last()) == title_key(songs.last()),
        titles_sorted(songs) ==> titles_sorted(dedup_by_title(songs)),
    decreases songs.len(),
{
    if songs.len() > 0 {
        let rest = songs.drop_last();
        let kept = dedup_by_title(rest);
        lemma_dedup_by_title(rest);
        let r = dedup_by_title(songs);
        assert forall|y: Keyed| #[trigger] r.contains(y) implies songs.contains(y) by {
            lemma_push_contains(kept, songs.last(), y);
            lemma_drop_last_contains(songs, y);
        }
        if rest.len() > 0 {
            assert(rest[0] == songs[0]);
            assert(songs[songs.len() - 2] == rest.last());
        }
        if r != kept {
            assert forall|i: int| 0 < i < r.len() implies title_key(#[trigger] r[i]) != title_key(
                r[i - 1],
            ) by {
                if i < r.len() - 1 {
                    assert(r[i] == kept[i] && r[i - 1] == kept[i - 1]);
                }
            }
        }
        if titles_sorted(songs) {
            assert(titles_sorted(rest)) by {
                assert forall|i: int| 0 < i < rest.len() implies !text_lt(
                    title_key(#[trigger] rest[i]),
                    title_key(rest[i - 1]),
                ) by {
                    assert(rest[i] == songs[i] && rest[i - 1] == songs[i - 1]);
                }
            }
            if r != kept {
                assert forall|i: int| 0 < i < r.len() implies !text_lt(
                    title_key(#[trigger] r[i]),
                    title_key(r[i - 1]),
                ) by {
                    if i < r.len() - 1 {
                        assert(r[i] == kept[i] && r[i - 1] == kept[i - 1]);
                    } else {
                        assert(songs[songs.len() - 1] == songs.last());
                    }
                }
            }
        }
    }
}

/// Songs without neighbouring repeated titles are left as they are by removing repeats.
pub proof fn lemma_dedup_by_title_distinct(songs: Seq<Keyed>)
    requires
        titles_distinct(songs),
    ensures
        dedup_by_title(songs) == songs,
    decreases songs.len(),
{
    if songs.len() > 0 {
        let rest = songs.drop_last();
        assert(titles_distinct(rest)) by {
            assert forall|i: int| 0 < i < rest.len() implies title_key(#[trigger] rest[i])
                != title_key(rest[i - 1]) by {
                assert(rest[i] == songs[i] && rest[i - 1] == songs[i - 1]);
            }
        }
        lemma_dedup_by_title_distinct(rest);
        if rest.len() > 0 {
            assert(songs[songs.len() - 1] == songs.last());
            assert(songs[songs.len() - 2] == rest.last());
        }
        assert(songs =~= rest.push(songs.last()));
    }
}

/// Whether a bucket holds songs, each with a sequence number and with the bucket's key.
pub open spec fn bucket_ok(b: Bucket) -> bool {
    b.1.len() > 0 && forall|t: int|
        #![trigger b.1[t]]
        0 <= t < b.1.len() ==> artist_key(b.1[t]) == b.0 && b.1[t].0.sequence_number.len() > 0
}

/// Whether no two buckets share a key.
pub open spec fn keys_distinct(buckets: Seq<Bucket>) -> bool {
    forall|i: int, j: int|
        0 <= i < buckets.len() && 0 <= j < buckets.len() && i != j ==> #[trigger] buckets[i].0
            != #[trigger] buckets[j].0
}

/// Whether no bucket has a key below that of the bucket before it.
pub open spec fn keys_sorted(buckets: Seq<Bucket>) -> bool {
    forall|i: int| #![trigger buckets[i]] 0 < i < buckets.len() ==> !text_lt(buckets[i].0, buckets[i - 1].0)
}

proof fn lemma_find_bucket_first(buckets: Seq<Bucket>, key: Seq<char>, i: int, j: int)
    requires
        0 <= i <= j < buckets.len(),
        buckets[j].0 == key,
        forall|t: int| i <= t < j ==> (#[trigger] buckets[t]).0 != key,
    ensures
        find_bucket(buckets, key, i) == Some(j),
    decreases j - i,
{
    if i < j {
        lemma_find_bucket_first(buckets, key, i + 1, j);
    }
}

proof fn lemma_find_bucket_none(buckets: Seq<Bucket>, key: Seq<char>, i: int)
    requires
        0 <= i,
        forall|t: int| i <= t < buckets.len() ==> (#[trigger] buckets[t]).0 != key,
    ensures
        find_bucket(buckets, key, i) is None,
    decreases buckets.len() - i,
{
    if i < buckets.len() {
        lemma_find_bucket_none(buckets, key, i + 1);
    }
}

proof fn lemma_find_bucket_found(buckets: Seq<Bucket>, key: Seq<char>, i: int)
    requires
        0 <= i,
    ensures
        match find_bucket(buckets, key, i) {
            Some(j) => i <= j < buckets.len() && buckets[j].0 == key,
            None => forall|t: int| i <= t < buckets.len() ==> (#[trigger] buckets[t]).0 != key,
        },
    decreases buckets.len() - i,
{
    if 0 <= i < buckets.len() && buckets[i].0 != key {
        lemma_find_bucket_found(buckets, key, i + 1);
    }
}

/// The buckets of a catalog hold songs with a sequence number and with the bucket's
/// key, and no two share a key.
pub proof fn lemma_buckets_of(songs: Seq<Keyed>)
    ensures
        keys_distinct(buckets_of(songs)),
        forall|i: int| 0 <= i < buckets_of(songs).len() ==> bucket_ok(#[trigger] buckets_of(songs)[i]),
    decreases songs.len(),
{
    if songs.len() > 0 {
        let bs = buckets_of(songs.drop_last());
        lemma_buckets_of(songs.drop_last());
        let x = songs.last();
        if x.0.sequence_number.len() > 0 {
            lemma_find_bucket_found(bs, artist_key(x), 0);
            let r = buckets_of(songs);
            match find_bucket(bs, artist_key(x), 0) {
                Some(j) => {
                    assert forall|i: int| 0 <= i < r.len() implies bucket_ok(#[trigger] r[i]) by {
                        if i == j {
                            assert(bucket_ok(bs[j]));
                            assert forall|t: int| 0 <= t < r[i].1.len() implies artist_key(
                                #[trigger] r[i].1[t],
                            ) == r[i].0 && r[i].1[t].0.sequence_number.len() > 0 by {
                                if t < bs[j].1.len() {
                                    assert(r[i].1[t] == bs[j].1[t]);
                                }
                            }
                        }
                    }
                    assert forall|a: int, b: int|
                        0 <= a < r.len() && 0 <= b < r.len() && a != b implies #[trigger] r[a].0
                        != #[trigger] r[b].0 by {
                        assert(bs[a].0 != bs[b].0);
                    }
                },
                None => {
                    assert forall|i: int| 0 <= i < r.len() implies bucket_ok(#[trigger] r[i]) by {
                        if i < bs.len() {
                            assert(r[i] == bs[i]);
                        }
                    }
                    assert forall|a: int, b: int|
                        0 <= a < r.len() && 0 <= b < r.len() && a != b implies #[trigger] r[a].0
                        != #[trigger] r[b].0 by {
                        if a < bs.len() && b < bs.len() {
                            assert(bs[a].0 != bs[b].0);
                        } else if a < bs.len() {
                            assert(bs[a].0 != artist_key(x));
                        } else {
                            assert(bs[b].0 != artist_key(x));
                        }
                    }
                },
            }
        }
    }
}

proof fn lemma_insert_bucket(sorted: Seq<Bucket>, b: Bucket)
    ensures
        insert_bucket(sorted, b).len() == sorted.len() + 1,
        forall|y: Bucket|
            #[trigger] insert_bucket(sorted, b).contains(y) <==> (sorted.contains(y) || y == b),
        insert_bucket(sorted, b).last() == b || (sorted.len() > 0 && insert_bucket(sorted, b).last()
            == sorted.last()),
        keys_sorted(sorted) ==> keys_sorted(insert_bucket(sorted, b)),
        keys_distinct(sorted) && (forall|i: int| 0 <= i < sorted.len() ==> (#[trigger] sorted[i]).0
            != b.0) ==> keys_distinct(insert_bucket(sorted, b)),
    decreases sorted.len(),
{
    let r = insert_bucket(sorted, b);
    if sorted.len() == 0 {
        assert forall|y: Bucket| #[trigger] r.contains(y) <==> (sorted.contains(y) || y == b) by {
            lemma_push_contains(sorted, b, y);
            assert(r =~= sorted.push(b));
        }
    } else if text_lt(b.0, sorted.last().0) {
        let rest = sorted.drop_last();
        lemma_insert_bucket(rest, b);
        let inner = insert_bucket(rest, b);
        assert forall|y: Bucket| #[trigger] r.contains(y) <==> (sorted.contains(y) || y == b) by {
            lemma_push_contains(inner, sorted.last(), y);
            lemma_drop_last_contains(sorted, y);
        }
        if keys_sorted(sorted) {
            assert(keys_sorted(rest)) by {
                assert forall|i: int| 0 < i < rest.len() implies !text_lt(
                    (#[trigger] rest[i]).0,
                    rest[i - 1].0,
                ) by {
                    assert(rest[i] == sorted[i] && rest[i - 1] == sorted[i - 1]);
                }
            }
            lemma_text_lt_asymmetric(b.0, sorted.last().0);
            if rest.len() > 0 {
                assert(sorted[rest.len() as int] == sorted.last());
                assert(sorted[rest.len() - 1] == rest.last());
            }
            assert forall|i: int| 0 < i < r.len() implies !text_lt(
                (#[trigger] r[i]).0,
                r[i - 1].0,
            ) by {
                if i < r.len() - 1 {
                    assert(r[i] == inner[i] && r[i - 1] == inner[i - 1]);
                } else {
                    assert(r[i - 1] == inner.last());
                }
            }
        }
        if keys_distinct(sorted) && (forall|i: int|
            0 <= i < sorted.len() ==> (#[trigger] sorted[i]).0 != b.0) {
            assert forall|i: int| 0 <= i < rest.len() implies (#[trigger] rest[i]).0 != b.0 by {
                assert(rest[i] == sorted[i]);
            }
            assert forall|i: int, j: int|
                0 <= i < rest.len() && 0 <= j < rest.len() && i != j implies #[trigger] rest[i].0
                != #[trigger] rest[j].0 by {
                assert(rest[i] == sorted[i] && rest[j] == sorted[j]);
            }
            assert forall|i: int| 0 <= i < inner.len() implies (#[trigger] inner[i]).0
                != sorted.last().0 by {
                assert(inner.contains(inner[i]));
                if inner[i] != b {
                    assert(rest.contains(inner[i]));
                    let t = choose|t: int| 0 <= t < rest.len() && rest[t] == inner[i];
                    assert(sorted[t] == rest[t]);
                    assert(sorted[sorted.len() - 1] == sorted.last());
                }
            }
            assert forall|i: int, j: int|
                0 <= i < r.len() && 0 <= j < r.len() && i != j implies #[trigger] r[i].0
                != #[trigger] r[j].0 by {
                if i < inner.len() && j < inner.len() {
                    assert(r[i] == inner[i] && r[j] == inner[j]);
                } else if i < inner.len() {
                    assert(r[i] == inner[i]);
                } else {
                    assert(r[j] == inner[j]);
                }
            }
        }
    } else {
        assert forall|y: Bucket| #[trigger] r.contains(y) <==> (sorted.contains(y) || y == b) by {
            lemma_push_contains(sorted, b, y);
        }
        if keys_sorted(sorted) {
            assert forall|i: int| 0 < i < r.len() implies !text_lt(
                (#[trigger] r[i]).0,
                r[i - 1].0,
            ) by {
                if i < r.len() - 1 {
                    assert(r[i] == sorted[i] && r[i - 1] == sorted[i - 1]);
                }
            }
        }
        if keys_distinct(sorted) && (forall|i: int|
            0 <= i < sorted.len() ==> (#[trigger] sorted[i]).0 != b.0) {
            assert forall|i: int, j: int|
                0 <= i < r.len() && 0 <= j < r.len() && i != j implies #[trigger] r[i].0
                != #[trigger] r[j].0 by {
                if i < sorted.len() && j < sorted.len() {
                    assert(r[i] == sorted[i] && r[j] == sorted[j]);
                } else if i < sorted.len() {
                    assert(r[i] == sorted[i]);
                } else {
                    assert(r[j] == sorted[j]);
                }
            }
        }
    }
}

/// Sorting buckets keeps them, puts them in order of key, and keeps keys distinct.
pub proof fn lemma_sort_buckets(buckets: Seq<Bucket>)
    ensures
        sort_buckets(buckets).len() == buckets.len(),
        forall|y: Bucket| #[trigger] sort_buckets(buckets).contains(y) <==> buckets.contains(y),
        keys_sorted(sort_buckets(buckets)),
        keys_distinct(buckets) ==> keys_distinct(sort_buckets(buckets)),
    decreases buckets.len(),
{
    if buckets.len() > 0 {
        let rest = buckets.drop_last();
        lemma_sort_buckets(rest);
        let sorted = sort_buckets(rest);
        if keys_distinct(buckets) {
            assert forall|i: int, j: int|
                0 <= i < rest.len() && 0 <= j < rest.len() && i != j implies #[trigger] rest[i].0
                != #[trigger] rest[j].0 by {
                assert(rest[i] == buckets[i] && rest[j] == buckets[j]);
            }
            assert forall|i: int| 0 <= i < sorted.len() implies (#[trigger] sorted[i]).0
                != buckets.last().0 by {
                assert(sorted.contains(sorted[i]));
                let t = choose|t: int| 0 <= t < rest.len() && rest[t] == sorted[i];
                assert(buckets[t] == rest[t]);
                assert(buckets[buckets.len() - 1] == buckets.last());
            }
        }
        lemma_insert_bucket(sorted, buckets.last());
        assert forall|y: Bucket| #[trigger] sort_buckets(buckets).contains(y) <==> buckets.contains(
            y,
        ) by {
            lemma_drop_last_contains(buckets, y);
        }
    }
}

/// Buckets already in order of key are left as they are by sorting.
pub proof fn lemma_sort_buckets_sorted(buckets: Seq<Bucket>)
    requires
        keys_sorted(buckets),
    ensures
        sort_buckets(buckets) == buckets,
    decreases buckets.len(),
{
    if buckets.len() > 0 {
        let rest = buckets.drop_last();
        assert(keys_sorted(rest)) by {
            assert forall|i: int| 0 < i < rest.len() implies !text_lt(
                (#[trigger] rest[i]).0,
                rest[i - 1].0,
            ) by {
                assert(rest[i] == buckets[i] && rest[i - 1] == buckets[i - 1]);
            }
        }
        lemma_sort_buckets_sorted(rest);
        if rest.len() > 0 {
            assert(buckets[buckets.len() - 1] == buckets.last());
            assert(buckets[buckets.len() - 2] == rest.last());
        }
        assert(buckets =~= rest.push(buckets.last()));
    }
}

proof fn lemma_finish_bucket(b: Bucket)
    requires
        bucket_ok(b),
    ensures
        finish_bucket(b).len() > 0,
        titles_sorted(finish_bucket(b)),
        titles_distinct(finish_bucket(b)),
        forall|t: int|
            #![trigger finish_bucket(b)[t]]
            0 <= t < finish_bucket(b).len() ==> artist_key(finish_bucket(b)[t]) == b.0
                && finish_bucket(b)[t].0.sequence_number.len() > 0,
        finish_bucket((b.0, finish_bucket(b))) == finish_bucket(b),
{
    let sorted = sort_by_title(b.1);
    let songs = dedup_by_title(sorted);
    lemma_sort_by_title(b.1);
    lemma_dedup_by_title(sorted);
    assert forall|t: int|
        #![trigger songs[t]]
        0 <= t < songs.len() implies artist_key(songs[t]) == b.0 && songs[t].0.sequence_number.len()
            > 0 by {
        assert(songs.contains(songs[t]));
        assert(sorted.contains(songs[t]));
        assert(b.1.contains(songs[t]));
        let k = choose|k: int| 0 <= k < b.1.len() && b.1[k] == songs[t];
        assert(artist_key(b.1[k]) == b.0);
    }
    lemma_sort_by_title_sorted(songs);
    lemma_dedup_by_title_distinct(songs);
}

proof fn lemma_buckets_of_append(
    prefix: Seq<Keyed>,
    buckets: Seq<Bucket>,
    key: Seq<char>,
    songs: Seq<Keyed>,
    t: int,
)
    requires
        buckets_of(prefix) == buckets,
        forall|i: int| 0 <= i < buckets.len() ==> (#[trigger] buckets[i]).0 != key,
        1 <= t <= songs.len(),
        forall|k: int|
            #![trigger songs[k]]
            0 <= k < songs.len() ==> artist_key(songs[k]) == key && songs[k].0.sequence_number.len()
                > 0,
    ensures
        buckets_of(prefix + songs.subrange(0, t)) == buckets.push((key, songs.subrange(0, t))),
    decreases t,
{
    let all = prefix + songs.subrange(0, t);
    assert(all.last() == songs[t - 1]);
    if t == 1 {
        assert(all.drop_last() =~= prefix);
        lemma_find_bucket_none(buckets, key, 0);
        assert(seq![songs[0]] =~= songs.subrange(0, 1));
    } else {
        lemma_buckets_of_append(prefix, buckets, key, songs, t - 1);
        assert(all.drop_last() =~= prefix + songs.subrange(0, t - 1));
        let before = buckets.push((key, songs.subrange(0, t - 1)));
        assert forall|i: int| 0 <= i < buckets.len() implies (#[trigger] before[i]).0 != key by {
            assert(before[i] == buckets[i]);
        }
        lemma_find_bucket_first(before, key, 0, buckets.len() as int);
        assert(songs.subrange(0, t - 1).push(songs[t - 1]) =~= songs.subrange(0, t));
        assert(before.update(buckets.len() as int, (key, songs.subrange(0, t))) =~= buckets.push(
            (key, songs.subrange(0, t)),
        ));
    }
}

proof fn lemma_buckets_of_flatten(groups: Seq<Seq<Keyed>>, keys: Seq<Seq<char>>)
    requires
        groups.len() == keys.len(),
        forall|i: int, j: int|
            0 <= i < keys.len() && 0 <= j < keys.len() && i != j ==> #[trigger] keys[i]
                != #[trigger] keys[j],
        forall|i: int|
            #![trigger groups[i]]
            0 <= i < groups.len() ==> groups[i].len() > 0 && forall|k: int|
                #![trigger groups[i][k]]
                0 <= k < groups[i].len() ==> artist_key(groups[i][k]) == keys[i]
                    && groups[i][k].0.sequence_number.len() > 0,
    ensures
        buckets_of(flatten_keyed(groups)) == Seq::new(
            groups.len(),
            |i: int| (keys[i], groups[i]),
        ),
    decreases groups.len(),
{
    let target = Seq::new(groups.len(), |i: int| (keys[i], groups[i]));
    if groups.len() == 0 {
        assert(target =~= Seq::<Bucket>::empty());
    } else {
        let m = groups.len() - 1;
        let rest = groups.drop_last();
        let rest_keys = keys.drop_last();
        assert forall|i: int| #![trigger rest[i]] 0 <= i < rest.len() implies rest[i].len() > 0
            && forall|k: int|
            #![trigger rest[i][k]]
            0 <= k < rest[i].len() ==> artist_key(rest[i][k]) == rest_keys[i]
                && rest[i][k].0.sequence_number.len() > 0 by {
            assert(rest[i] == groups[i]);
            assert(groups[i].len() > 0);
        }
        assert forall|i: int, j: int|
            0 <= i < rest_keys.len() && 0 <= j < rest_keys.len() && i != j implies #[trigger] rest_keys[i]
                != #[trigger] rest_keys[j] by {
            assert(keys[i] != keys[j]);
        }
        lemma_buckets_of_flatten(rest, rest_keys);
        let before = Seq::new(rest.len(), |i: int| (rest_keys[i], rest[i]));
        let songs = groups[m];
        assert(groups[m].len() > 0);
        assert forall|k: int|
            #![trigger songs[k]]
            0 <= k < songs.len() implies artist_key(songs[k]) == keys[m]
                && songs[k].0.sequence_number.len() > 0 by {
            assert(artist_key(groups[m][k]) == keys[m]);
        }
        assert forall|i: int| 0 <= i < before.len() implies (#[trigger] before[i]).0 != keys[m] by {
            assert(keys[i] != keys[m]);
        }
        lemma_buckets_of_append(flatten_keyed(rest), before, keys[m], songs, songs.len() as int);
        assert(songs.subrange(0, songs.len() as int) =~= songs);
        assert(groups.last() == groups[m]);
        assert(before.push((keys[m], songs)) =~= target);
    }
}

/// Grouping songs by their keys is idempotent: grouping the songs of the groups, one
/// group after the other, gives the same groups again.
pub proof fn lemma_group_keyed_idempotent(songs: Seq<Keyed>)
    ensures
        grouped_keyed(flatten_keyed(grouped_keyed(songs))) == grouped_keyed(songs),
{
    let buckets = buckets_of(songs);
    lemma_buckets_of(songs);
    let sorted = sort_buckets(buckets);
    lemma_sort_buckets(buckets);
    let groups = grouped_keyed(songs);
    assert forall|i: int| 0 <= i < sorted.len() implies bucket_ok(#[trigger] sorted[i]) by {
        assert(sorted.contains(sorted[i]));
        let t = choose|t: int| 0 <= t < buckets.len() && buckets[t] == sorted[i];
        assert(bucket_ok(buckets[t]));
    }
    let keys = Seq::new(sorted.len(), |i: int| sorted[i].0);
    assert forall|i: int|
        #![trigger groups[i]]
        0 <= i < groups.len() implies groups[i].len() > 0 && forall|k: int|
            #![trigger groups[i][k]]
            0 <= k < groups[i].len() ==> artist_key(groups[i][k]) == keys[i]
                && groups[i][k].0.sequence_number.len() > 0 by {
        assert(bucket_ok(sorted[i]));
        lemma_finish_bucket(sorted[i]);
        assert(groups[i] == finish_bucket(sorted[i]));
        assert forall|k: int|
            #![trigger groups[i][k]]
            0 <= k < groups[i].len() implies artist_key(groups[i][k]) == keys[i]
                && groups[i][k].0.sequence_number.len() > 0 by {
            assert(finish_bucket(sorted[i])[k] == groups[i][k]);
        }
    }
    assert forall|i: int, j: int|
        0 <= i < keys.len() && 0 <= j < keys.len() && i != j implies #[trigger] keys[i]
            != #[trigger] keys[j] by {
        assert(sorted[i].0 != sorted[j].0);
    }
    lemma_buckets_of_flatten(groups, keys);
    let again = Seq::new(groups.len(), |i: int| (keys[i], groups[i]));
    assert(keys_sorted(again)) by {
        assert forall|i: int| 0 < i < again.len() implies !text_lt(
            (#[trigger] again[i]).0,
            again[i - 1].0,
        ) by {
            assert(!text_lt(sorted[i].0, sorted[i - 1].0));
        }
    }
    lemma_sort_buckets_sorted(again);
    assert forall|i: int| 0 <= i < groups.len() implies finish_bucket(#[trigger] again[i])
        == groups[i] by {
        assert(bucket_ok(sorted[i]));
        lemma_finish_bucket(sorted[i]);
    }
    assert(grouped_keyed(flatten_keyed(groups)) =~= groups);
}


/// The group that the shown songs of a bucket make, under the artist name of the
/// first of them.
pub open spec fn group_view(songs: Seq<Keyed>) -> SongGroupView {
    SongGroupView { artist: songs[0].0.artist, songs: songs.map_values(|k: Keyed| k.0) }
}

/// The per-artist groups of songs that carry their keys.
pub open spec fn grouped_by_keys(songs: Seq<Keyed>) -> Seq<SongGroupView> {
    grouped_keyed(songs).map_values(|g: Seq<Keyed>| group_view(g))
}

/// A song with case-insensitive keys: its artist and title lower-cased.
pub open spec fn keyed_by_case(song: SongView) -> Keyed {
    (song, lower_of(song.artist), lower_of(song.title))
}

/// Songs with case-insensitive keys.
pub open spec fn keyed_songs(songs: Seq<SongView>) -> Seq<Keyed> {
    songs.map_values(|s: SongView| keyed_by_case(s))
}

/// The per-artist groups of a catalog: artists and titles compared case-insensitively.
pub open spec fn grouped(songs: Seq<SongView>) -> Seq<SongGroupView> {
    grouped_by_keys(keyed_songs(songs))
}

/// Songs paired with the keys given for them, one for one.
pub open spec fn with_keys(
    songs: Seq<SongView>,
    artist_keys: Seq<String>,
    title_keys: Seq<String>,
) -> Seq<Keyed> {
    Seq::new(songs.len(), |i: int| (songs[i], artist_keys[i]@, title_keys[i]@))
}

/// The songs of `groups`, one group after the other.
pub open spec fn flatten(groups: Seq<SongGroupView>) -> Seq<SongView>
    decreases groups.len(),
{
    if groups.len() == 0 {
        Seq::empty()
    } else {
        flatten(groups.drop_last()) + groups.last().songs
    }
}

proof fn lemma_buckets_of_members(songs: Seq<Keyed>)
    ensures
        forall|i: int, t: int|
            0 <= i < buckets_of(songs).len() && 0 <= t < buckets_of(songs)[i].1.len()
                ==> songs.contains(#[trigger] buckets_of(songs)[i].1[t]),
    decreases songs.len(),
{
    if songs.len() > 0 {
        let rest = songs.drop_last();
        lemma_buckets_of_members(rest);
        let bs = buckets_of(rest);
        let r = buckets_of(songs);
        let x = songs.last();
        lemma_find_bucket_found(bs, artist_key(x), 0);
        assert forall|i: int, t: int|
            0 <= i < r.len() && 0 <= t < r[i].1.len() implies songs.contains(#[trigger] r[i].1[t]) by {
            lemma_drop_last_contains(songs, r[i].1[t]);
            if x.0.sequence_number.len() > 0 {
                match find_bucket(bs, artist_key(x), 0) {
                    Some(j) => {
                        if i != j || t < bs[j].1.len() {
                            assert(r[i].1[t] == bs[i].1[t]);
                        }
                    },
                    None => {
                        if i < bs.len() {
                            assert(r[i] == bs[i]);
                        }
                    },
                }
            }
        }
    }
}

proof fn lemma_grouped_members(songs: Seq<Keyed>)
    ensures
        forall|i: int, t: int|
            0 <= i < grouped_keyed(songs).len() && 0 <= t < grouped_keyed(songs)[i].len()
                ==> songs.contains(#[trigger] grouped_keyed(songs)[i][t]),
{
    let buckets = buckets_of(songs);
    lemma_buckets_of_members(songs);
    let sorted = sort_buckets(buckets);
    lemma_sort_buckets(buckets);
    let g = grouped_keyed(songs);
    assert forall|i: int, t: int| 0 <= i < g.len() && 0 <= t < g[i].len() implies songs.contains(
        #[trigger] g[i][t],
    ) by {
        let b = sorted[i];
        assert(sorted.contains(b));
        let k = choose|k: int| 0 <= k < buckets.len() && buckets[k] == b;
        lemma_sort_by_title(b.1);
        lemma_dedup_by_title(sort_by_title(b.1));
        assert(g[i] == finish_bucket(b));
        assert(g[i].contains(g[i][t]));
        assert(b.1.contains(g[i][t]));
        let u = choose|u: int| 0 <= u < b.1.len() && b.1[u] == g[i][t];
        assert(buckets[k].1[u] == g[i][t]);
    }
}

proof fn lemma_keyed_flatten(groups: Seq<Seq<Keyed>>)
    requires
        forall|i: int, t: int|
            0 <= i < groups.len() && 0 <= t < groups[i].len() ==> #[trigger] groups[i][t]
                == keyed_by_case(groups[i][t].0),
    ensures
        keyed_songs(flatten(groups.map_values(|g: Seq<Keyed>| group_view(g)))) == flatten_keyed(
            groups,
        ),
    decreases groups.len(),
{
    let views = groups.map_values(|g: Seq<Keyed>| group_view(g));
    if groups.len() == 0 {
        assert(keyed_songs(flatten(views)) =~= flatten_keyed(groups));
    } else {
        let rest = groups.drop_last();
        assert forall|i: int, t: int|
            0 <= i < rest.len() && 0 <= t < rest[i].len() implies #[trigger] rest[i][t]
                == keyed_by_case(rest[i][t].0) by {
            assert(rest[i] == groups[i]);
            assert(groups[i][t] == keyed_by_case(groups[i][t].0));
        }
        lemma_keyed_flatten(rest);
        assert(views.drop_last() =~= rest.map_values(|g: Seq<Keyed>| group_view(g)));
        let last = groups.last();
        assert(views.last() == group_view(last));
        assert forall|t: int| 0 <= t < last.len() implies #[trigger] last[t] == keyed_by_case(last[t].0) by {
            assert(last == groups[groups.len() - 1]);
            assert(groups[groups.len() - 1][t] == keyed_by_case(groups[groups.len() - 1][t].0));
        }
        assert(keyed_songs(group_view(last).songs) =~= last);
        let a = flatten(views.drop_last());
        let b = views.last().songs;
        assert(keyed_songs(a + b) =~= keyed_songs(a) + keyed_songs(b));
    }
}

/// Grouping is idempotent: grouping the songs of the groups, one group after the other,
/// gives the same groups again.
pub proof fn lemma_group_idempotent(songs: Seq<SongView>)
    ensures
        grouped(flatten(grouped(songs))) == grouped(songs),
{
    let ks = keyed_songs(songs);
    let g = grouped_keyed(ks);
    lemma_grouped_members(ks);
    assert forall|i: int, t: int| 0 <= i < g.len() && 0 <= t < g[i].len() implies #[trigger] g[i][t]
        == keyed_by_case(g[i][t].0) by {
        assert(ks.contains(g[i][t]));
        let u = choose|u: int| 0 <= u < ks.len() && ks[u] == g[i][t];
        assert(ks[u] == keyed_by_case(songs[u]));
    }
    lemma_keyed_flatten(g);
    lemma_group_keyed_idempotent(ks);
}

/// The sorted buckets of a catalog are all well formed.
proof fn lemma_sorted_buckets_ok(songs: Seq<Keyed>)
    ensures
        forall|i: int|
            0 <= i < sort_buckets(buckets_of(songs)).len() ==> bucket_ok(
                #[trigger] sort_buckets(buckets_of(songs))[i],
            ),
{
    let buckets = buckets_of(songs);
    lemma_buckets_of(songs);
    let sorted = sort_buckets(buckets);
    lemma_sort_buckets(buckets);
    assert forall|i: int| 0 <= i < sorted.len() implies bucket_ok(#[trigger] sorted[i]) by {
        assert(sorted.contains(sorted[i]));
        let t = choose|t: int| 0 <= t < buckets.len() && buckets[t] == sorted[i];
        assert(bucket_ok(buckets[t]));
    }
}

proof fn lemma_insert_by_title_at(sorted: Seq<Keyed>, x: Keyed, j: int)
    requires
        0 <= j <= sorted.len(),
        forall|t: int| j <= t < sorted.len() ==> text_lt(title_key(x), title_key(#[trigger] sorted[t])),
        j == 0 || !text_lt(title_key(x), title_key(sorted[j - 1])),
    ensures
        insert_by_title(sorted, x) == sorted.insert(j, x),
    decreases sorted.len() - j,
{
    if j == sorted.len() {
        assert(sorted.insert(j, x) =~= sorted.push(x));
        if sorted.len() > 0 {
            assert(sorted[j - 1] == sorted.last());
        }
    } else {
        let rest = sorted.drop_last();
        assert(sorted[sorted.len() - 1] == sorted.last());
        assert forall|t: int| j <= t < rest.len() implies text_lt(title_key(x), title_key(#[trigger] rest[t])) by {
            assert(rest[t] == sorted[t]);
        }
        if j > 0 {
            assert(rest[j - 1] == sorted[j - 1]);
        }
        lemma_insert_by_title_at(rest, x, j);
        assert(rest.insert(j, x).push(sorted.last()) =~= sorted.insert(j, x));
    }
}

proof fn lemma_insert_bucket_at(sorted: Seq<Bucket>, b: Bucket, j: int)
    requires
        0 <= j <= sorted.len(),
        forall|t: int| j <= t < sorted.len() ==> text_lt(b.0, (#[trigger] sorted[t]).0),
        j == 0 || !text_lt(b.0, sorted[j - 1].0),
    ensures
        insert_bucket(sorted, b) == sorted.insert(j, b),
    decreases sorted.len() - j,
{
    if j == sorted.len() {
        assert(sorted.insert(j, b) =~= sorted.push(b));
        if sorted.len() > 0 {
            assert(sorted[j - 1] == sorted.last());
        }
    } else {
        let rest = sorted.drop_last();
        assert(sorted[sorted.len() - 1] == sorted.last());
        assert forall|t: int| j <= t < rest.len() implies text_lt(b.0, (#[trigger] rest[t]).0) by {
            assert(rest[t] == sorted[t]);
        }
        if j > 0 {
            assert(rest[j - 1] == sorted[j - 1]);
        }
        lemma_insert_bucket_at(rest, b, j);
        assert(rest.insert(j, b).push(sorted.last()) =~= sorted.insert(j, b));
    }
}


/// A song with its keys, while it is being grouped.
struct KeyedSong {
    song: Song,
    artist_key: Vec<char>,
    title_key: Vec<char>,
}

impl View for KeyedSong {
    type V = Keyed;

    closed spec fn view(&self) -> Keyed {
        (self.song@, self.artist_key@, self.title_key@)
    }
}

spec fn keyed_views(items: Seq<KeyedSong>) -> Seq<Keyed> {
    items.map_values(|k: KeyedSong| k@)
}

/// The songs of one artist, while they are being collected.
struct ArtistBucket {
    key: Vec<char>,
    songs: Vec<KeyedSong>,
}

impl View for ArtistBucket {
    type V = Bucket;

    closed spec fn view(&self) -> Bucket {
        (self.key@, keyed_views(self.songs@))
    }
}

spec fn bucket_views(buckets: Seq<ArtistBucket>) -> Seq<Bucket> {
    buckets.map_values(|b: ArtistBucket| b@)
}

fn same_chars(a: &Vec<char>, b: &Vec<char>) -> (r: bool)
    ensures
        r == (a@ == b@),
{
    if a.len() != b.len() {
        return false;
    }
    let mut i: usize = 0;
    while i < a.len()
        invariant
            a@.len() == b@.len(),
            i <= a@.len(),
            forall|t: int| 0 <= t < i ==> a@[t] == b@[t],
        decreases a@.len() - i,
    {
        if a[i] != b[i] {
            return false;
        }
        i = i + 1;
    }
    assert(a@ =~= b@);
    true
}

fn copy_chars(a: &Vec<char>) -> (r: Vec<char>)
    ensures
        r@ == a@,
{
    let mut r: Vec<char> = Vec::new();
    let mut i: usize = 0;
    while i < a.len()
        invariant
            i <= a@.len(),
            r@ == a@.subrange(0, i as int),
        decreases a@.len() - i,
    {
        r.push(a[i]);
        i = i + 1;
        assert(r@ =~= a@.subrange(0, i as int));
    }
    assert(a@.subrange(0, i as int) =~= a@);
    r
}

fn collect_buckets(items: Vec<KeyedSong>) -> (r: Vec<ArtistBucket>)
    ensures
        bucket_views(r@) == buckets_of(keyed_views(items@)),
{
    let ghost all = keyed_views(items@);
    let ghost n = items@.len();
    let mut rest = items;
    let mut buckets: Vec<ArtistBucket> = Vec::new();
    assert(all.subrange(0, 0) =~= Seq::<Keyed>::empty());
    assert(all.subrange(0, n as int) =~= all);
    assert(bucket_views(buckets@) =~= Seq::<Bucket>::empty());
    while rest.len() > 0
        invariant
            rest@.len() <= n == all.len(),
            keyed_views(rest@) == all.subrange(n - rest@.len(), n as int),
            bucket_views(buckets@) == buckets_of(all.subrange(0, n - rest@.len())),
        decreases rest@.len(),
    {
        let ghost i = n - rest@.len();
        let ghost before = bucket_views(buckets@);
        let ghost old_rest = rest@;
        let x = rest.remove(0);
        assert(keyed_views(old_rest)[0] == all.subrange(i, n as int)[0]);
        assert(x@ == all[i]);
        assert(keyed_views(rest@) =~= keyed_views(old_rest).subrange(1, old_rest.len() as int));
        assert(keyed_views(rest@) =~= all.subrange(i + 1, n as int));
        assert(all.subrange(0, i + 1).drop_last() =~= all.subrange(0, i));
        assert(all.subrange(0, i + 1).last() == x@);
        if !x.song.sequence_number.as_str().is_empty() {
            let mut j: usize = 0;
            while j < buckets.len() && !same_chars(&buckets[j].key, &x.artist_key)
                invariant
                    j <= buckets@.len(),
                    before == bucket_views(buckets@),
                    forall|t: int| 0 <= t < j ==> (#[trigger] before[t]).0 != x@.1,
                decreases buckets@.len() - j,
            {
                j = j + 1;
            }
            if j < buckets.len() {
                proof {
                    lemma_find_bucket_first(before, x@.1, 0, j as int);
                }
                let mut bucket = buckets.remove(j);
                let ghost old_view = bucket@;
                let ghost xv = x@;
                bucket.songs.push(x);
                assert(bucket@.1 =~= old_view.1.push(xv));
                buckets.insert(j, bucket);
                assert(bucket_views(buckets@) =~= before.update(
                    j as int,
                    (before[j as int].0, before[j as int].1.push(xv)),
                ));
            } else {
                proof {
                    lemma_find_bucket_none(before, x@.1, 0);
                }
                let ghost xv = x@;
                let key = copy_chars(&x.artist_key);
                let mut first: Vec<KeyedSong> = Vec::new();
                first.push(x);
                let bucket = ArtistBucket { key, songs: first };
                assert(bucket@.1 =~= seq![xv]);
                buckets.push(bucket);
                assert(bucket_views(buckets@) =~= before.push((xv.1, seq![xv])));
            }
        }
    }
    buckets
}

fn sort_bucket_list(buckets: Vec<ArtistBucket>) -> (r: Vec<ArtistBucket>)
    ensures
        bucket_views(r@) == sort_buckets(bucket_views(buckets@)),
{
    let ghost all = bucket_views(buckets@);
    let ghost n = buckets@.len();
    let mut rest = buckets;
    let mut sorted: Vec<ArtistBucket> = Vec::new();
    assert(all.subrange(0, 0) =~= Seq::<Bucket>::empty());
    assert(all.subrange(0, n as int) =~= all);
    assert(bucket_views(sorted@) =~= Seq::<Bucket>::empty());
    while rest.len() > 0
        invariant
            rest@.len() <= n == all.len(),
            bucket_views(rest@) == all.subrange(n - rest@.len(), n as int),
            bucket_views(sorted@) == sort_buckets(all.subrange(0, n - rest@.len())),
        decreases rest@.len(),
    {
        let ghost i = n - rest@.len();
        let ghost before = bucket_views(sorted@);
        let ghost old_rest = rest@;
        let b = rest.remove(0);
        assert(bucket_views(old_rest)[0] == all.subrange(i, n as int)[0]);
        assert(b@ == all[i]);
        assert(bucket_views(rest@) =~= bucket_views(old_rest).subrange(1, old_rest.len() as int));
        assert(bucket_views(rest@) =~= all.subrange(i + 1, n as int));
        assert(all.subrange(0, i + 1).drop_last() =~= all.subrange(0, i));
        let mut j: usize = sorted.len();
        while j > 0 && text_less(&b.key, &sorted[j - 1].key)
            invariant
                j <= sorted@.len(),
                before == bucket_views(sorted@),
                forall|t: int| j <= t < before.len() ==> text_lt(b@.0, (#[trigger] before[t]).0),
            decreases j,
        {
            j = j - 1;
        }
        proof {
            lemma_insert_bucket_at(before, b@, j as int);
        }
        sorted.insert(j, b);
        assert(bucket_views(sorted@) =~= before.insert(j as int, b@));
    }
    sorted
}

fn sort_keyed(songs: Vec<KeyedSong>) -> (r: Vec<KeyedSong>)
    ensures
        keyed_views(r@) == sort_by_title(keyed_views(songs@)),
{
    let ghost all = keyed_views(songs@);
    let ghost n = songs@.len();
    let mut rest = songs;
    let mut sorted: Vec<KeyedSong> = Vec::new();
    assert(all.subrange(0, 0) =~= Seq::<Keyed>::empty());
    assert(all.subrange(0, n as int) =~= all);
    assert(keyed_views(sorted@) =~= Seq::<Keyed>::empty());
    while rest.len() > 0
        invariant
            rest@.len() <= n == all.len(),
            keyed_views(rest@) == all.subrange(n - rest@.len(), n as int),
            keyed_views(sorted@) == sort_by_title(all.subrange(0, n - rest@.len())),
        decreases rest@.len(),
    {
        let ghost i = n - rest@.len();
        let ghost before = keyed_views(sorted@);
        let ghost old_rest = rest@;
        let x = rest.remove(0);
        assert(keyed_views(old_rest)[0] == all.subrange(i, n as int)[0]);
        assert(x@ == all[i]);
        assert(keyed_views(rest@) =~= keyed_views(old_rest).subrange(1, old_rest.len() as int));
        assert(keyed_views(rest@) =~= all.subrange(i + 1, n as int));
        assert(all.subrange(0, i + 1).drop_last() =~= all.subrange(0, i));
        let mut j: usize = sorted.len();
        while j > 0 && text_less(&x.title_key, &sorted[j - 1].title_key)
            invariant
                j <= sorted@.len(),
                before == keyed_views(sorted@),
                forall|t: int|
                    j <= t < before.len() ==> text_lt(title_key(x@), title_key(#[trigger] before[t])),
            decreases j,
        {
            j = j - 1;
        }
        proof {
            lemma_insert_by_title_at(before, x@, j as int);
        }
        let ghost xv = x@;
        sorted.insert(j, x);
        assert(keyed_views(sorted@) =~= before.insert(j as int, xv));
    }
    sorted
}

fn dedup_keyed(songs: Vec<KeyedSong>) -> (r: Vec<KeyedSong>)
    ensures
        keyed_views(r@) == dedup_by_title(keyed_views(songs@)),
{
    let ghost all = keyed_views(songs@);
    let ghost n = songs@.len();
    let mut rest = songs;
    let mut kept: Vec<KeyedSong> = Vec::new();
    assert(all.subrange(0, 0) =~= Seq::<Keyed>::empty());
    assert(all.subrange(0, n as int) =~= all);
    assert(keyed_views(kept@) =~= Seq::<Keyed>::empty());
    while rest.len() > 0
        invariant
            rest@.len() <= n == all.len(),
            keyed_views(rest@) == all.subrange(n - rest@.len(), n as int),
            keyed_views(kept@) == dedup_by_title(all.subrange(0, n - rest@.len())),
        decreases rest@.len(),
    {
        let ghost i = n - rest@.len();
        let ghost before = keyed_views(kept@);
        let ghost old_rest = rest@;
        let x = rest.remove(0);
        assert(keyed_views(old_rest)[0] == all.subrange(i, n as int)[0]);
        assert(x@ == all[i]);
        assert(keyed_views(rest@) =~= keyed_views(old_rest).subrange(1, old_rest.len() as int));
        assert(keyed_views(rest@) =~= all.subrange(i + 1, n as int));
        assert(all.subrange(0, i + 1).drop_last() =~= all.subrange(0, i));
        let fresh = kept.len() == 0 || !same_chars(&kept[kept.len() - 1].title_key, &x.title_key);
        if kept.len() > 0 {
            assert(before.last() == kept@[kept@.len() - 1]@);
        }
        if fresh {
            let ghost xv = x@;
            kept.push(x);
            assert(keyed_views(kept@) =~= before.push(xv));
        }
    }
    kept
}

fn songs_of(items: Vec<KeyedSong>) -> (r: Vec<Song>)
    ensures
        song_views(r@) == keyed_views(items@).map_values(|k: Keyed| k.0),
{
    let ghost all = keyed_views(items@).map_values(|k: Keyed| k.0);
    let ghost n = items@.len();
    let mut rest = items;
    let mut songs: Vec<Song> = Vec::new();
    assert(all.subrange(0, n as int) =~= all);
    assert(song_views(songs@) =~= all.subrange(0, 0));
    while rest.len() > 0
        invariant
            rest@.len() <= n == all.len(),
            keyed_views(rest@).map_values(|k: Keyed| k.0) == all.subrange(
                n - rest@.len(),
                n as int,
            ),
            song_views(songs@) == all.subrange(0, n - rest@.len()),
        decreases rest@.len(),
    {
        let ghost i = n - rest@.len();
        let ghost before = song_views(songs@);
        let ghost old_rest = rest@;
        let x = rest.remove(0);
        assert(keyed_views(old_rest).map_values(|k: Keyed| k.0)[0] == all.subrange(i, n as int)[0]);
        assert(x.song@ == all[i]);
        assert(keyed_views(rest@) =~= keyed_views(old_rest).subrange(1, old_rest.len() as int));
        assert(keyed_views(rest@).map_values(|k: Keyed| k.0) =~= keyed_views(old_rest).map_values(
            |k: Keyed| k.0,
        ).subrange(1, old_rest.len() as int));
        assert(keyed_views(rest@).map_values(|k: Keyed| k.0) =~= all.subrange(i + 1, n as int));
        let ghost xs = x.song@;
        songs.push(x.song);
        assert(song_views(songs@) =~= before.push(xs));
        assert(all.subrange(0, i + 1) =~= all.subrange(0, i).push(xs));
    }
    songs
}

/// Groups songs by the keys given for them: `artist_keys[i]` and `title_keys[i]` are
/// the keys of `songs[i]`. Songs without a sequence number are left out; groups come
/// in order of artist key, the songs of a group in order of title key without
/// repeated title keys, as `grouped_by_keys` states.
pub fn group_songs_by_keys(songs: Vec<Song>, artist_keys: &Vec<String>, title_keys: &Vec<String>) -> (r: Vec<SongGroup>)
    requires
        artist_keys@.len() == songs@.len(),
        title_keys@.len() == songs@.len(),
    ensures
        group_views(r@) == grouped_by_keys(with_keys(song_views(songs@), artist_keys@, title_keys@)),
{
    let ghost old_songs = songs@;
    let ghost target = with_keys(song_views(songs@), artist_keys@, title_keys@);
    let ghost n = songs@.len();
    let total = artist_keys.len();
    let mut rest = songs;
    let mut items: Vec<KeyedSong> = Vec::new();
    let mut i: usize = 0;
    assert(keyed_views(items@) =~= target.subrange(0, 0));
    assert forall|t: int| 0 <= t < rest@.len() implies #[trigger] rest@[t]@ == target[0 + t].0 by {
        assert(song_views(rest@)[t] == rest@[t]@);
    }
    while rest.len() > 0
        invariant
            i + rest@.len() == n == target.len(),
            n == total,
            target == with_keys(song_views(old_songs), artist_keys@, title_keys@),
            artist_keys@.len() == n,
            title_keys@.len() == n,
            forall|t: int| 0 <= t < rest@.len() ==> #[trigger] rest@[t]@ == target[i + t].0,
            keyed_views(items@) == target.subrange(0, i as int),
        decreases rest@.len(),
    {
        let ghost old_rest = rest@;
        let song = rest.remove(0);
        assert(old_rest[0]@ == target[i as int].0);
        assert forall|t: int| 0 <= t < rest@.len() implies #[trigger] rest@[t]@ == target[i + 1 + t].0 by {
            assert(rest@[t] == old_rest[t + 1]);
        }
        let artist_key = chars_of(artist_keys[i].as_str());
        let title_key = chars_of(title_keys[i].as_str());
        assert(artist_key@ == target[i as int].1);
        assert(title_key@ == target[i as int].2);
        let item = KeyedSong { song, artist_key, title_key };
        let ghost before = keyed_views(items@);
        assert(item@ == target[i as int]);
        items.push(item);
        assert(keyed_views(items@) =~= before.push(target[i as int]));
        i = i + 1;
        assert(keyed_views(items@) =~= target.subrange(0, i as int));
    }
    assert(target.subrange(0, n as int) =~= target);
    let buckets = collect_buckets(items);
    let mut rest = sort_bucket_list(buckets);
    let ghost all = bucket_views(rest@);
    let ghost m = rest@.len();
    proof {
        lemma_sorted_buckets_ok(target);
    }
    let mut groups: Vec<SongGroup> = Vec::new();
    assert(all.subrange(0, m as int) =~= all);
    assert(group_views(groups@) =~= all.subrange(0, 0).map_values(
        |b: Bucket| group_view(finish_bucket(b)),
    ));
    while rest.len() > 0
        invariant
            rest@.len() <= m == all.len(),
            all == sort_buckets(buckets_of(target)),
            forall|k: int| 0 <= k < all.len() ==> bucket_ok(#[trigger] all[k]),
            bucket_views(rest@) == all.subrange(m - rest@.len(), m as int),
            group_views(groups@) == all.subrange(0, m - rest@.len()).map_values(
                |b: Bucket| group_view(finish_bucket(b)),
            ),
        decreases rest@.len(),
    {
        let ghost k = m - rest@.len();
        let ghost before = group_views(groups@);
        let ghost old_rest = rest@;
        let b = rest.remove(0);
        assert(bucket_views(old_rest)[0] == all.subrange(k, m as int)[0]);
        assert(b@ == all[k]);
        assert(bucket_views(rest@) =~= bucket_views(old_rest).subrange(1, old_rest.len() as int));
        assert(bucket_views(rest@) =~= all.subrange(k + 1, m as int));
        proof {
            lemma_finish_bucket(b@);
        }
        let ghost shown = finish_bucket(all[k]);
        let kept = dedup_keyed(sort_keyed(b.songs));
        assert(keyed_views(kept@) == shown);
        assert(shown[0] == kept@[0]@);
        let artist = kept[0].song.artist.clone();
        let songs = songs_of(kept);
        let group = SongGroup { artist, songs };
        assert(group@.songs =~= group_view(shown).songs);
        assert(group@ == group_view(shown));
        groups.push(group);
        assert(group_views(groups@) =~= before.push(group_view(shown)));
        assert(group_views(groups@) =~= all.subrange(0, k + 1).map_values(
            |b: Bucket| group_view(finish_bucket(b)),
        ));
    }
    assert(all.subrange(0, m as int).map_values(|b: Bucket| group_view(finish_bucket(b)))
        =~= grouped_by_keys(target));
    groups
}

/// Groups a catalog's songs by artist, artists and titles compared case-insensitively,
/// as `grouped` states.
pub fn group_songs(songs: Vec<Song>) -> (r: Vec<SongGroup>)
    ensures
        group_views(r@) == grouped(song_views(songs@)),
{
    let mut artist_keys: Vec<String> = Vec::new();
    let mut title_keys: Vec<String> = Vec::new();
    let mut i: usize = 0;
    while i < songs.len()
        invariant
            i <= songs@.len(),
            artist_keys@.len() == i,
            title_keys@.len() == i,
            forall|t: int|
                0 <= t < i ==> (#[trigger] artist_keys@[t])@ == lower_of(songs@[t].artist@)
                    && title_keys@[t]@ == lower_of(songs@[t].title@),
        decreases songs@.len() - i,
    {
        let a = lowercase(songs[i].artist.as_str());
        let t = lowercase(songs[i].title.as_str());
        let ghost old_a = artist_keys@;
        let ghost old_t = title_keys@;
        artist_keys.push(a);
        title_keys.push(t);
        assert forall|u: int|
            0 <= u < i + 1 implies (#[trigger] artist_keys@[u])@ == lower_of(songs@[u].artist@)
                && title_keys@[u]@ == lower_of(songs@[u].title@) by {
            if u < i {
                assert(artist_keys@[u] == old_a[u]);
                assert(title_keys@[u] == old_t[u]);
            }
        }
        i = i + 1;
    }
    assert(with_keys(song_views(songs@), artist_keys@, title_keys@) =~= keyed_songs(
        song_views(songs@),
    ));
    group_songs_by_keys(songs, &artist_keys, &title_keys)
}

} // verus!
