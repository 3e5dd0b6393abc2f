use crate::fingerprint::{calculate_hash, same_hash, sha256_of};
use vstd::prelude::*;

verus! {

/// A file that the walk enumerated, named by its position in discovery order.
pub type FileId = usize;

/// A recorded file with the content hash it had when it was read.
pub type Record = (FileId, Seq<u8>);

/// A bucket as seen in contracts: its content hash and its files in discovery
/// order.
pub type BucketView = (Seq<u8>, Seq<FileId>);

/// The files among `records` whose hash is `h`, in the order they were recorded.
pub open spec fn files_with_hash(records: Seq<Record>, h: Seq<u8>) -> Seq<FileId>
    decreases records.len(),
{
    if records.len() == 0 {
        Seq::empty()
    } else {
        let rest = files_with_hash(records.drop_last(), h);
        if records.last().1 == h {
            rest.push(records.last().0)
        } else {
            rest
        }
    }
}

proof fn lemma_files_with_hash_push(records: Seq<Record>, file: FileId, h: Seq<u8>, g: Seq<u8>)
    ensures
        files_with_hash(records.push((file, h)), g) == if g == h {
            files_with_hash(records, g).push(file)
        } else {
            files_with_hash(records, g)
        },
{
    assert(records.push((file, h)).drop_last() =~= records);
}

/// Whether some bucket of `buckets` has the key `h`.
pub open spec fn has_key(buckets: Seq<BucketView>, h: Seq<u8>) -> bool {
    exists|i: int| 0 <= i < buckets.len() && buckets[i].0 == h
}

/// The buckets of `buckets` that hold two or more files, in their order, as
/// sequences of files.
pub open spec fn duplicate_groups_of(buckets: Seq<BucketView>) -> Seq<Seq<FileId>>
    decreases buckets.len(),
{
    if buckets.len() == 0 {
        Seq::empty()
    } else {
        let rest = duplicate_groups_of(buckets.drop_last());
        if buckets.last().1.len() > 1 {
            rest.push(buckets.last().1)
        } else {
            rest
        }
    }
}

/// Every duplicate group has at least two files.
pub proof fn lemma_duplicate_groups_sizes(buckets: Seq<BucketView>)
    ensures
        forall|g: int|
            0 <= g < duplicate_groups_of(buckets).len() ==> #[trigger] duplicate_groups_of(
                buckets,
            )[g].len() >= 2,
    decreases buckets.len(),
{
    if buckets.len() > 0 {
        let rest = duplicate_groups_of(buckets.drop_last());
        lemma_duplicate_groups_sizes(buckets.drop_last());
        assert forall|g: int|
            0 <= g < duplicate_groups_of(buckets).len() implies #[trigger] duplicate_groups_of(
                buckets,
            )[g].len() >= 2 by {
            if g < rest.len() {
                assert(rest[g].len() >= 2);
            }
        }
    }
}

/// The files that share one content hash, in discovery order.
pub struct Bucket {
    hash: Vec<u8>,
    files: Vec<FileId>,
}

impl View for Bucket {
    type V = BucketView;

    closed spec fn view(&self) -> BucketView {
        (self.hash@, self.files@)
    }
}

impl Bucket {
    /// The content hash that every file of this bucket had when it was hashed.
    pub fn hash(&self) -> (r: &Vec<u8>)
        ensures
            r@ == self@.0,
    {
        &self.hash
    }

    /// The files of this bucket, in discovery order.
    pub fn files(&self) -> (r: &Vec<FileId>)
        ensures
            r@ == self@.1,
    {
        &self.files
    }
}

/// The map from content hash to the files that have it.
///
/// Buckets appear in the order in which their first file was recorded; files
/// within a bucket appear in the order in which they were recorded.
pub struct FingerprintIndex {
    buckets: Vec<Bucket>,
    discovered: usize,
    records: Ghost<Seq<Record>>,
}

impl View for FingerprintIndex {
    type V = Seq<BucketView>;

    closed spec fn view(&self) -> Seq<BucketView> {
        self.buckets@.map_values(|b: Bucket| b@)
    }
}

impl FingerprintIndex {
    /// Every file recorded so far, with its hash, in the order of recording.
    pub closed spec fn records(&self) -> Seq<Record> {
        self.records@
    }

    /// Number of files offered to the index so far, read or not. Each file is
    /// named by the number of files offered before it.
    pub closed spec fn discovered(&self) -> nat {
        self.discovered as nat
    }

    /// The index agrees with its records: each file recorded once, in
    /// discovery order; one bucket per distinct hash; and each bucket holds
    /// exactly the recorded files with that hash, in order.
    pub open spec fn wf(&self) -> bool {
        &&& ids_increasing(self.records())
        &&& forall|j: int|
            0 <= j < self.records().len() ==> #[trigger] self.records()[j].0 < self.discovered()
        &&& forall|i: int, j: int|
            0 <= i < j < self@.len() ==> self@[i].0 != self@[j].0
        &&& forall|i: int|
            0 <= i < self@.len() ==> self@[i].1 == files_with_hash(self.records(), #[trigger] self@[i].0)
                && self@[i].1.len() > 0
        &&& forall|h: Seq<u8>|
            !has_key(self@, h) ==> #[trigger] files_with_hash(self.records(), h).len() == 0
    }

    /// An index with no files.
    pub fn new() -> (r: Self)
        ensures
            r.wf(),
            r@.len() == 0,
            r.records().len() == 0,
            r.discovered() == 0,
    {
        let r = FingerprintIndex {
            buckets: Vec::new(),
            discovered: 0,
            records: Ghost(Seq::empty()),
        };
        assert(r@ =~= Seq::<BucketView>::empty());
        r
    }

    /// Records the next file, whose content hash is `hash`, and returns its
    /// number: appended to the bucket of that hash if there is one, else in a
    /// new bucket at the end.
    pub fn insert(&mut self, hash: Vec<u8>) -> (file: FileId)
        requires
            old(self).wf(),
            old(self).discovered() < usize::MAX,
        ensures
            final(self).wf(),
            file == old(self).discovered(),
            final(self).discovered() == old(self).discovered() + 1,
            final(self).records() == old(self).records().push((file, hash@)),
            forall|i: int|
                0 <= i < old(self)@.len() && old(self)@[i].0 == hash@ ==> final(self)@
                    == old(self)@.update(i, (hash@, old(self)@[i].1.push(file))),
            !has_key(old(self)@, hash@) ==> final(self)@ == old(self)@.push((hash@, seq![file])),
    {
        let file = self.discovered;
        let ghost old_records = self.records@;
        let ghost new_records = old_records.push((file, hash@));
        let mut i: usize = 0;
        while i < self.buckets.len()
            invariant
                self.wf(),
                *self == *old(self),
                self.records() == old_records,
                new_records == old_records.push((file, hash@)),
                file == self.discovered(),
                self.discovered() < usize::MAX,
                i <= self.buckets@.len(),
                forall|j: int| 0 <= j < i ==> self@[j].0 != hash@,
            decreases self.buckets@.len() - i,
        {
            if same_hash(self.buckets[i].hash.as_slice(), hash.as_slice()) {
                let ghost before = self@;
                assert(has_key(before, hash@));
                self.buckets[i].files.push(file);
                self.discovered = file + 1;
                self.records = Ghost(new_records);
                assert(self@ =~= before.update(i as int, (hash@, before[i as int].1.push(file))));
                assert forall|j: int| 0 <= j < self@.len() implies self@[j].1 == files_with_hash(
                    self.records(),
                    #[trigger] self@[j].0,
                ) && self@[j].1.len() > 0 by {
                    lemma_files_with_hash_push(old_records, file, hash@, self@[j].0);
                }
                assert forall|h: Seq<u8>| !has_key(self@, h) implies #[trigger] files_with_hash(
                    self.records(),
                    h,
                ).len() == 0 by {
                    assert(self@[i as int].0 == hash@);
                    lemma_files_with_hash_push(old_records, file, hash@, h);
                    assert(files_with_hash(old_records, h).len() == 0) by {
                        if has_key(before, h) {
                            let k = choose|k: int| 0 <= k < before.len() && before[k].0 == h;
                            assert(self@[k].0 == h);
                        }
                    }
                }
                return file;
            }
            i = i + 1;
        }
        let ghost before = self@;
        let mut files: Vec<FileId> = Vec::new();
        files.push(file);
        self.buckets.push(Bucket { hash, files });
        self.discovered = file + 1;
        self.records = Ghost(new_records);
        assert(self@ =~= before.push((hash@, seq![file])));
        assert(files_with_hash(old_records, hash@).len() == 0);
        proof { lemma_files_with_hash_push(old_records, file, hash@, hash@); }
        assert(files_with_hash(new_records, hash@) =~= seq![file]);
        assert forall|j: int| 0 <= j < self@.len() implies self@[j].1 == files_with_hash(
            self.records(),
            #[trigger] self@[j].0,
        ) && self@[j].1.len() > 0 by {
            lemma_files_with_hash_push(old_records, file, hash@, self@[j].0);
        }
        assert forall|h: Seq<u8>| !has_key(self@, h) implies #[trigger] files_with_hash(
            self.records(),
            h,
        ).len() == 0 by {
            assert(self@[before.len() as int].0 == hash@);
            lemma_files_with_hash_push(old_records, file, hash@, h);
            if has_key(before, h) {
                let k = choose|k: int| 0 <= k < before.len() && before[k].0 == h;
                assert(self@[k].0 == h);
            }
            assert(files_with_hash(old_records, h).len() == 0);
        }
        file
    }

    /// Hashes the full contents of the next file, records it under that hash
    /// and returns its number.
    pub fn add_file(&mut self, content: &[u8]) -> (file: FileId)
        requires
            old(self).wf(),
            old(self).discovered() < usize::MAX,
        ensures
            final(self).wf(),
            file == old(self).discovered(),
            final(self).discovered() == old(self).discovered() + 1,
            final(self).records() == old(self).records().push((file, sha256_of(content@))),
            forall|i: int|
                0 <= i < old(self)@.len() && old(self)@[i].0 == sha256_of(content@) ==> final(self)@
                    == old(self)@.update(i, (sha256_of(content@), old(self)@[i].1.push(file))),
            !has_key(old(self)@, sha256_of(content@)) ==> final(self)@ == old(self)@.push(
                (sha256_of(content@), seq![file]),
            ),
    {
        let hash = calculate_hash(content);
        self.insert(hash)
    }

    /// Takes the outcome of reading the next file: its contents, or `None`
    /// where the read failed, and returns the file's number. A file that could
    /// not be read is counted but left out of every bucket.
    pub fn add_read_result(&mut self, content: Option<&[u8]>) -> (file: FileId)
        requires
            old(self).wf(),
            old(self).discovered() < usize::MAX,
        ensures
            final(self).wf(),
            file == old(self).discovered(),
            final(self).discovered() == old(self).discovered() + 1,
            content is None ==> final(self)@ == old(self)@,
            content is None ==> final(self).records() == old(self).records(),
            content is Some ==> final(self).records() == old(self).records().push(
                (file, sha256_of(content->0@)),
            ),
            content is Some ==> forall|i: int|
                0 <= i < old(self)@.len() && old(self)@[i].0 == sha256_of(content->0@)
                    ==> final(self)@ == old(self)@.update(
                    i,
                    (sha256_of(content->0@), old(self)@[i].1.push(file)),
                ),
            content is Some && !has_key(old(self)@, sha256_of(content->0@)) ==> final(self)@
                == old(self)@.push((sha256_of(content->0@), seq![file])),
    {
        match content {
            Some(bytes) => self.add_file(bytes),
            None => {
                let ghost before = *self;
                let file = self.discovered;
                self.discovered = file + 1;
                assert(self@ == before@ && self.records() == before.records());
                file
            },
        }
    }

    /// Number of files offered so far, read or not.
    pub fn file_count(&self) -> (r: usize)
        ensures
            r == self.discovered(),
    {
        self.discovered
    }

    /// Number of buckets, one per distinct content hash.
    pub fn len(&self) -> (r: usize)
        ensures
            r == self@.len(),
    {
        self.buckets.len()
    }

    /// The bucket at position `i`.
    pub fn bucket(&self, i: usize) -> (r: &Bucket)
        requires
            i < self@.len(),
        ensures
            r@ == self@[i as int],
    {
        &self.buckets[i]
    }

    /// The buckets with two or more files, in bucket order: the duplicate
    /// groups. The first file of each group is the one to keep.
    pub fn duplicate_groups(&self) -> (r: Vec<Vec<FileId>>)
        ensures
            r.deep_view() == duplicate_groups_of(self@),
    {
        let mut groups: Vec<Vec<FileId>> = Vec::new();
        let mut i: usize = 0;
        while i < self.buckets.len()
            invariant
                i <= self@.len(),
                groups.deep_view() == duplicate_groups_of(self@.subrange(0, i as int)),
            decreases self@.len() - i,
        {
            let files = &self.buckets[i].files;
            assert(self@.subrange(0, i + 1).drop_last() =~= self@.subrange(0, i as int));
            if files.len() > 1 {
                let copy = copy_files(files);
                let ghost before = groups.deep_view();
                assert(copy.deep_view() =~= copy@);
                groups.push(copy);
                assert(groups.deep_view() =~= before.push(self@[i as int].1));
            }
            i = i + 1;
        }
        assert(self@.subrange(0, self@.len() as int) =~= self@);
        groups
    }
}

/// A copy of a list of files.
fn copy_files(files: &Vec<FileId>) -> (r: Vec<FileId>)
    ensures
        r@ == files@,
{
    let mut r: Vec<FileId> = Vec::new();
    for k in 0..files.len()
        invariant
            r@ == files@.subrange(0, k as int),
    {
        r.push(files[k]);
        assert(r@ =~= files@.subrange(0, k + 1));
    }
    assert(files@.subrange(0, files@.len() as int) =~= files@);
    r
}

/// Files were recorded in strictly increasing order of their numbers, so no
/// file was recorded twice.
pub open spec fn ids_increasing(records: Seq<Record>) -> bool {
    forall|i: int, j: int| 0 <= i < j < records.len() ==> records[i].0 < records[j].0
}

/// A group is a duplicate group of `buckets` exactly when it is the file list
/// of one of the buckets and holds two or more files.
pub proof fn lemma_duplicate_groups_members(buckets: Seq<BucketView>, x: Seq<FileId>)
    ensures
        duplicate_groups_of(buckets).contains(x) == (x.len() > 1 && exists|i: int|
            0 <= i < buckets.len() && #[trigger] buckets[i].1 == x),
    decreases buckets.len(),
{
    if buckets.len() > 0 {
        let init = buckets.drop_last();
        let rest = duplicate_groups_of(init);
        lemma_duplicate_groups_members(init, x);
        if duplicate_groups_of(buckets).contains(x) {
            let g = choose|g: int|
                0 <= g < duplicate_groups_of(buckets).len() && duplicate_groups_of(buckets)[g] == x;
            if g < rest.len() {
                assert(rest.contains(x));
                let i = choose|i: int| 0 <= i < init.len() && #[trigger] init[i].1 == x;
                assert(buckets[i].1 == x);
            } else {
                assert(buckets[buckets.len() - 1].1 == x);
            }
        }
        if x.len() > 1 && exists|i: int| 0 <= i < buckets.len() && #[trigger] buckets[i].1 == x {
            let i = choose|i: int| 0 <= i < buckets.len() && #[trigger] buckets[i].1 == x;
            if i < init.len() {
                assert(init[i].1 == x);
                let g = choose|g: int| 0 <= g < rest.len() && rest[g] == x;
                assert(duplicate_groups_of(buckets)[g] == x);
            } else {
                assert(duplicate_groups_of(buckets).last() == x);
            }
        }
    }
}

/// A file is among the files recorded with hash `h` exactly when it was
/// recorded with that hash.
pub proof fn lemma_files_with_hash_members(records: Seq<Record>, h: Seq<u8>, file: FileId)
    ensures
        files_with_hash(records, h).contains(file) == records.contains((file, h)),
    decreases records.len(),
{
    if records.len() > 0 {
        let init = records.drop_last();
        lemma_files_with_hash_members(init, h, file);
        let rest = files_with_hash(init, h);
        if files_with_hash(records, h).contains(file) {
            if rest.contains(file) {
                let i = choose|i: int| 0 <= i < init.len() && init[i] == (file, h);
                assert(records[i] == (file, h));
            } else {
                assert(records.last() == (file, h));
            }
        }
        if records.contains((file, h)) {
            let i = choose|i: int| 0 <= i < records.len() && records[i] == (file, h);
            if i < init.len() {
                assert(init[i] == (file, h));
                let j = choose|j: int| 0 <= j < rest.len() && rest[j] == file;
                assert(files_with_hash(records, h)[j] == file);
            } else {
                assert(files_with_hash(records, h).last() == file);
            }
        }
    }
}

/// Files of identical content end up together in exactly one duplicate group,
/// and a file whose content no other file shares is in no group.
pub proof fn lemma_duplicates_grouped_together(index: &FingerprintIndex, file: FileId, h: Seq<u8>)
    requires
        index.wf(),
        index.records().contains((file, h)),
    ensures
        files_with_hash(index.records(), h).len() > 1 ==> duplicate_groups_of(index@).contains(
            files_with_hash(index.records(), h),
        ),
        forall|g: int|
            0 <= g < duplicate_groups_of(index@).len() && #[trigger] duplicate_groups_of(
                index@,
            )[g].contains(file) ==> duplicate_groups_of(index@)[g] == files_with_hash(
                index.records(),
                h,
            ),
        files_with_hash(index.records(), h).len() <= 1 ==> forall|g: int|
            0 <= g < duplicate_groups_of(index@).len() ==> !(#[trigger] duplicate_groups_of(
                index@,
            )[g].contains(file)),
{
    let records = index.records();
    let groups = duplicate_groups_of(index@);
    let same = files_with_hash(records, h);
    lemma_files_with_hash_members(records, h, file);
    if same.len() > 1 {
        assert(has_key(index@, h));
        let i = choose|i: int| 0 <= i < index@.len() && index@[i].0 == h;
        assert(index@[i].1 == same);
        lemma_duplicate_groups_members(index@, same);
    }
    assert forall|g: int| 0 <= g < groups.len() && #[trigger] groups[g].contains(file) implies groups[g]
        == same by {
        let x = groups[g];
        assert(groups.contains(x));
        lemma_duplicate_groups_members(index@, x);
        let i = choose|i: int| 0 <= i < index@.len() && #[trigger] index@[i].1 == x;
        let key = index@[i].0;
        assert(x == files_with_hash(records, key));
        lemma_files_with_hash_members(records, key, file);
        let a = choose|a: int| 0 <= a < records.len() && records[a] == (file, key);
        let b = choose|b: int| 0 <= b < records.len() && records[b] == (file, h);
        if a != b {
            if a < b {
                assert(records[a].0 != records[b].0);
            } else {
                assert(records[b].0 != records[a].0);
            }
        }
    }
    if same.len() <= 1 {
        assert forall|g: int| 0 <= g < groups.len() implies !(#[trigger] groups[g].contains(file)) by {
            lemma_duplicate_groups_sizes(index@);
            if groups[g].contains(file) {
                assert(groups[g] == same);
            }
        }
    }
}

/// An index built from the same records holds the same buckets, whatever
/// their order.
pub proof fn lemma_same_records_same_buckets(a: &FingerprintIndex, b: &FingerprintIndex)
    requires
        a.wf(),
        b.wf(),
        a.records() == b.records(),
    ensures
        forall|i: int| 0 <= i < a@.len() ==> b@.contains(#[trigger] a@[i]),
        forall|j: int| 0 <= j < b@.len() ==> a@.contains(#[trigger] b@[j]),
{
    assert forall|i: int| 0 <= i < a@.len() implies b@.contains(#[trigger] a@[i]) by {
        let h = a@[i].0;
        assert(files_with_hash(b.records(), h).len() > 0);
        assert(has_key(b@, h));
        let j = choose|j: int| 0 <= j < b@.len() && b@[j].0 == h;
        assert(b@[j] == a@[i]);
    }
    assert forall|j: int| 0 <= j < b@.len() implies a@.contains(#[trigger] b@[j]) by {
        let h = b@[j].0;
        assert(files_with_hash(a.records(), h).len() > 0);
        assert(has_key(a@, h));
        let i = choose|i: int| 0 <= i < a@.len() && a@[i].0 == h;
        assert(a@[i] == b@[j]);
    }
}

/// Where no two recorded files share a content hash (no files at all
/// included), there is no duplicate group.
pub proof fn lemma_distinct_contents_no_groups(index: &FingerprintIndex)
    requires
        index.wf(),
        forall|h: Seq<u8>| #[trigger] files_with_hash(index.records(), h).len() <= 1,
    ensures
        duplicate_groups_of(index@).len() == 0,
{
    let groups = duplicate_groups_of(index@);
    if groups.len() > 0 {
        let x = groups[0];
        assert(groups.contains(x));
        lemma_duplicate_groups_members(index@, x);
        let i = choose|i: int| 0 <= i < index@.len() && #[trigger] index@[i].1 == x;
        assert(files_with_hash(index.records(), index@[i].0).len() <= 1);
    }
}

/// Where files were recorded in increasing order of their numbers, no file
/// occurs twice among the files recorded with one hash.
pub proof fn lemma_files_with_hash_distinct(records: Seq<Record>, h: Seq<u8>)
    requires
        ids_increasing(records),
    ensures
        files_with_hash(records, h).no_duplicates(),
    decreases records.len(),
{
    if records.len() > 0 {
        let init = records.drop_last();
        lemma_files_with_hash_distinct(init, h);
        let last = records.last();
        if last.1 == h {
            lemma_files_with_hash_members(init, h, last.0);
            if init.contains((last.0, h)) {
                let i = choose|i: int| 0 <= i < init.len() && init[i] == (last.0, h);
                assert(records[i].0 == records[records.len() - 1].0);
            }
        }
    }
}

/// The duplicate groups of buckets whose file lists are each free of repeats
/// and pairwise disjoint hold no file twice.
proof fn lemma_groups_distinct_from_buckets(buckets: Seq<BucketView>)
    requires
        forall|i: int| 0 <= i < buckets.len() ==> (#[trigger] buckets[i].1).no_duplicates(),
        forall|i: int, j: int, k: int, l: int|
            0 <= i < buckets.len() && 0 <= j < buckets.len() && i != j && 0 <= k
                < buckets[i].1.len() && 0 <= l < buckets[j].1.len() ==> #[trigger] buckets[i].1[k]
                != #[trigger] buckets[j].1[l],
    ensures
        crate::reconcile::files_distinct(duplicate_groups_of(buckets)),
    decreases buckets.len(),
{
    if buckets.len() > 0 {
        let init = buckets.drop_last();
        let rest = duplicate_groups_of(init);
        let groups = duplicate_groups_of(buckets);
        let n = buckets.len() - 1;
        assert forall|i: int| 0 <= i < init.len() implies (#[trigger] init[i].1).no_duplicates() by {
            assert(init[i] == buckets[i]);
        }
        assert forall|i: int, j: int, k: int, l: int|
            0 <= i < init.len() && 0 <= j < init.len() && i != j && 0 <= k < init[i].1.len() && 0
                <= l < init[j].1.len() implies #[trigger] init[i].1[k] != #[trigger] init[j].1[l] by {
            assert(init[i] == buckets[i] && init[j] == buckets[j]);
        }
        lemma_groups_distinct_from_buckets(init);
        if buckets.last().1.len() > 1 {
            assert forall|g1: int, k1: int, g2: int, k2: int|
                0 <= g1 < groups.len() && 0 <= k1 < groups[g1].len() && 0 <= g2 < groups.len() && 0
                    <= k2 < groups[g2].len() && (g1 != g2 || k1 != k2) implies #[trigger] groups[g1][k1]
                != #[trigger] groups[g2][k2] by {
                let last = buckets[n].1;
                if g1 < rest.len() && g2 < rest.len() {
                    assert(groups[g1] == rest[g1] && groups[g2] == rest[g2]);
                } else if g1 == rest.len() && g2 == rest.len() {
                    assert(groups[g1] == last);
                } else {
                    let (g, k, m) = if g1 < rest.len() {
                        (g1, k1, k2)
                    } else {
                        (g2, k2, k1)
                    };
                    assert(rest.contains(rest[g]));
                    lemma_duplicate_groups_members(init, rest[g]);
                    let i = choose|i: int| 0 <= i < init.len() && #[trigger] init[i].1 == rest[g];
                    assert(buckets[i].1[k] != buckets[n].1[m]);
                }
            }
        }
    }
}

/// No file occurs twice among the duplicate groups: the premise under which deleting all but the first member of a
/// confirmed group spares that first member.
pub proof fn lemma_groups_files_distinct(index: &FingerprintIndex)
    requires
        index.wf(),
    ensures
        crate::reconcile::files_distinct(duplicate_groups_of(index@)),
{
    let b = index@;
    let records = index.records();
    assert forall|i: int| 0 <= i < b.len() implies (#[trigger] b[i].1).no_duplicates() by {
        lemma_files_with_hash_distinct(records, b[i].0);
    }
    assert forall|i: int, j: int, k: int, l: int|
        0 <= i < b.len() && 0 <= j < b.len() && i != j && 0 <= k < b[i].1.len() && 0 <= l
            < b[j].1.len() implies #[trigger] b[i].1[k] != #[trigger] b[j].1[l] by {
        let f = b[i].1[k];
        if f == b[j].1[l] {
            assert(b[i].1.contains(f) && b[j].1.contains(f));
            lemma_files_with_hash_members(records, b[i].0, f);
            lemma_files_with_hash_members(records, b[j].0, f);
            let x = choose|x: int| 0 <= x < records.len() && records[x] == (f, b[i].0);
            let y = choose|y: int| 0 <= y < records.len() && records[y] == (f, b[j].0);
            assert(x != y);
            if x < y {
                assert(records[x].0 != records[y].0);
            } else {
                assert(records[y].0 != records[x].0);
            }
        }
    }
    lemma_groups_distinct_from_buckets(b);
}

} // verus!
