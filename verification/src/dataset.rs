//! The dataset store: an immutable snapshot of a scanned directory and the
//! pure planning half of every operation on it. Each mutation returns a new
//! snapshot together with the exact file writes that persist it; the caller
//! commits the writes to disk before adopting the snapshot, so no snapshot
//! ever claims a write that did not happen.

use vstd::prelude::*;

use crate::codec;
use crate::paths;

verus! {

/// One scanned image file: its base name (extension included, unique within
/// a dataset), its filesystem path, and its ordered tag list.
#[derive(Clone, Debug)]
pub struct DatasetImage {
    pub name: String,
    pub path: String,
    pub tags: Vec<String>,
}

/// The mathematical value of a `DatasetImage`.
pub struct ImageView {
    pub name: Seq<char>,
    pub path: Seq<char>,
    pub tags: Seq<Seq<char>>,
}

impl View for DatasetImage {
    type V = ImageView;

    open spec fn view(&self) -> ImageView {
        ImageView { name: self.name@, path: self.path@, tags: self.tags.deep_view() }
    }
}

/// The images of a slice of `DatasetImage`s, as mathematical values.
pub open spec fn images_view(data: Seq<DatasetImage>) -> Seq<ImageView> {
    data.map_values(|im: DatasetImage| im@)
}

proof fn lemma_images_view(data: Seq<DatasetImage>)
    ensures
        images_view(data).len() == data.len(),
        forall|i: int| 0 <= i < data.len() ==> #[trigger] images_view(data)[i] == data[i]@,
{
}

/// An immutable snapshot of one scanned directory: its base name, its path,
/// and one image per qualifying file. Mutations never edit a snapshot in
/// place; they return a new one.
#[derive(Clone, Debug)]
pub struct Dataset {
    pub name: String,
    pub path: String,
    pub data: Vec<DatasetImage>,
}

/// The mathematical value of a `Dataset`.
pub struct DatasetView {
    pub name: Seq<char>,
    pub path: Seq<char>,
    pub data: Seq<ImageView>,
}

impl View for Dataset {
    type V = DatasetView;

    open spec fn view(&self) -> DatasetView {
        DatasetView { name: self.name@, path: self.path@, data: images_view(self.data@) }
    }
}

/// The ways a store operation can fail.
#[derive(Clone, Copy, Debug, PartialEq, Eq, Structural)]
pub enum DatasetErrorType {
    /// A path component could not be represented as text.
    Name,
    /// Reserved for path-resolution failures.
    Path,
    /// The directory could not be listed or an entry could not be inspected.
    Read,
    /// A file could not be created or overwritten.
    Write,
    /// Reserved catch-all for unclassified read failures.
    UnknownRead,
    /// The caller referenced an image or tag absent from the snapshot it was
    /// given: a broken caller contract, not a recoverable user error.
    ShouldBeImpossible,
}

/// A store failure: its kind, and the path it concerns when one is known.
#[derive(Clone, Debug)]
pub struct DatasetError {
    pub type_: DatasetErrorType,
    pub path: Option<String>,
}

impl DatasetError {
    pub fn new(type_: DatasetErrorType, path: Option<String>) -> (r: DatasetError)
        ensures
            r.type_ == type_,
            r.path == path,
    {
        DatasetError { type_, path }
    }
}

/// The path text shown in an error message: the recorded path, or nothing.
pub open spec fn path_text(p: Option<String>) -> Seq<char> {
    match p {
        Some(s) => s@,
        None => Seq::<char>::empty(),
    }
}

/// The human-readable description of an error of kind `t` about the path
/// text `p`.
pub open spec fn message_of(t: DatasetErrorType, p: Seq<char>) -> Seq<char> {
    match t {
        DatasetErrorType::Name => "Error reading name from path '"@ + p + "'"@,
        DatasetErrorType::Path => "Error reading path '"@ + p + "'"@,
        DatasetErrorType::Read => "Error reading dataset from path '"@ + p + "'"@,
        DatasetErrorType::Write => "Error writing file to path '"@ + p + "'"@,
        DatasetErrorType::UnknownRead => "Unknown error occurred while reading dataset from path '"@
            + p + "'"@,
        DatasetErrorType::ShouldBeImpossible => "An error occurred that should be impossible to occur"@,
    }
}

impl DatasetError {
    /// The human-readable description of this error.
    pub fn message(&self) -> (r: String)
        ensures
            r@ == message_of(self.type_, path_text(self.path)),
    {
        let p: String = match &self.path {
            Some(s) => s.clone(),
            None => String::new(),
        };
        match self.type_ {
            DatasetErrorType::Name => {
                let mut m = String::from_str("Error reading name from path '");
                m.append(p.as_str());
                m.append("'");
                m
            },
            DatasetErrorType::Path => {
                let mut m = String::from_str("Error reading path '");
                m.append(p.as_str());
                m.append("'");
                m
            },
            DatasetErrorType::Read => {
                let mut m = String::from_str("Error reading dataset from path '");
                m.append(p.as_str());
                m.append("'");
                m
            },
            DatasetErrorType::Write => {
                let mut m = String::from_str("Error writing file to path '");
                m.append(p.as_str());
                m.append("'");
                m
            },
            DatasetErrorType::UnknownRead => {
                let mut m = String::from_str(
                    "Unknown error occurred while reading dataset from path '",
                );
                m.append(p.as_str());
                m.append("'");
                m
            },
            DatasetErrorType::ShouldBeImpossible => {
                String::from_str("An error occurred that should be impossible to occur")
            },
        }
    }
}

/// One pending file write: the tag-file path and the full text to store
/// there.
#[derive(Clone, Debug)]
pub struct TagFileWrite {
    pub path: String,
    pub content: String,
}

fn clone_string_vec(v: &Vec<String>) -> (r: Vec<String>)
    ensures
        r@ == v@,
{
    let mut r: Vec<String> = Vec::new();
    let mut k: usize = 0;
    while k < v.len()
        invariant
            k <= v.len(),
            r@ == v@.subrange(0, k as int),
        decreases v.len() - k,
    {
        r.push(v[k].clone());
        proof {
            assert(v@.subrange(0, k + 1 as int) =~= v@.subrange(0, k as int).push(v@[k as int]));
        }
        k = k + 1;
    }
    proof {
        assert(v@.subrange(0, v@.len() as int) =~= v@);
    }
    r
}

impl DatasetImage {
    /// An equal copy of this image.
    pub fn duplicate(&self) -> (r: DatasetImage)
        ensures
            r@ == self@,
    {
        let r = DatasetImage {
            name: self.name.clone(),
            path: self.path.clone(),
            tags: clone_string_vec(&self.tags),
        };
        proof {
            assert(r.tags.deep_view() =~= self.tags.deep_view());
        }
        r
    }
}

impl Dataset {
    /// An equal copy of this snapshot.
    pub fn duplicate(&self) -> (r: Dataset)
        ensures
            r@ == self@,
    {
        let mut data: Vec<DatasetImage> = Vec::new();
        let mut k: usize = 0;
        while k < self.data.len()
            invariant
                k <= self.data.len(),
                images_view(data@) == images_view(self.data@).subrange(0, k as int),
            decreases self.data.len() - k,
        {
            let ghost pre = data@;
            data.push(self.data[k].duplicate());
            proof {
                lemma_images_view(pre);
                lemma_images_view(data@);
                lemma_images_view(self.data@);
                assert(images_view(data@) =~= images_view(self.data@).subrange(0, k + 1 as int));
            }
            k = k + 1;
        }
        proof {
            assert(images_view(self.data@).subrange(0, self.data@.len() as int) =~= images_view(
                self.data@,
            ));
        }
        Dataset { name: self.name.clone(), path: self.path.clone(), data }
    }
}

/// The index of the first image in `data` whose name is `name`, or `-1`
/// when no image carries it.
pub open spec fn image_index_of(data: Seq<ImageView>, name: Seq<char>) -> int
    decreases data.len(),
{
    if data.len() == 0 {
        -1
    } else if data[0].name == name {
        0
    } else {
        let r = image_index_of(data.drop_first(), name);
        if r < 0 {
            -1
        } else {
            r + 1
        }
    }
}

proof fn lemma_image_index_of(data: Seq<ImageView>, name: Seq<char>)
    ensures
        -1 <= image_index_of(data, name) < data.len(),
        image_index_of(data, name) >= 0 ==> data[image_index_of(data, name)].name == name,
        forall|k: int| 0 <= k < image_index_of(data, name) ==> data[k].name != name,
        image_index_of(data, name) == -1 ==> forall|k: int|
            0 <= k < data.len() ==> data[k].name != name,
    decreases data.len(),
{
    if data.len() > 0 && data[0].name != name {
        let rest = data.drop_first();
        lemma_image_index_of(rest, name);
        let r = image_index_of(data, name);
        assert forall|k: int| 0 <= k < r implies data[k].name != name by {
            if k >= 1 {
                assert(data[k] == rest[k - 1]);
            }
        }
        if r == -1 {
            assert forall|k: int| 0 <= k < data.len() implies data[k].name != name by {
                if k >= 1 {
                    assert(data[k] == rest[k - 1]);
                }
            }
        }
    }
}

/// The index of the first occurrence of `tag` in `tags`, or `-1` when the
/// tag is absent.
pub open spec fn tag_index_of(tags: Seq<Seq<char>>, tag: Seq<char>) -> int
    decreases tags.len(),
{
    if tags.len() == 0 {
        -1
    } else if tags[0] == tag {
        0
    } else {
        let r = tag_index_of(tags.drop_first(), tag);
        if r < 0 {
            -1
        } else {
            r + 1
        }
    }
}

proof fn lemma_tag_index_of(tags: Seq<Seq<char>>, tag: Seq<char>)
    ensures
        -1 <= tag_index_of(tags, tag) < tags.len(),
        tag_index_of(tags, tag) >= 0 ==> tags[tag_index_of(tags, tag)] == tag,
        forall|k: int| 0 <= k < tag_index_of(tags, tag) ==> tags[k] != tag,
        tag_index_of(tags, tag) == -1 ==> forall|k: int|
            0 <= k < tags.len() ==> tags[k] != tag,
    decreases tags.len(),
{
    if tags.len() > 0 && tags[0] != tag {
        let rest = tags.drop_first();
        lemma_tag_index_of(rest, tag);
        let r = tag_index_of(tags, tag);
        assert forall|k: int| 0 <= k < r implies tags[k] != tag by {
            if k >= 1 {
                assert(tags[k] == rest[k - 1]);
            }
        }
        if r == -1 {
            assert forall|k: int| 0 <= k < tags.len() implies tags[k] != tag by {
                if k >= 1 {
                    assert(tags[k] == rest[k - 1]);
                }
            }
        }
    }
}

impl Dataset {
    fn find_image(&self, name: &String) -> (r: Option<usize>)
        ensures
            match r {
                Some(i) => i < self.data.len() && image_index_of(self@.data, name@) == i as int,
                None => image_index_of(self@.data, name@) == -1,
            },
    {
        proof {
            lemma_images_view(self.data@);
            lemma_image_index_of(self@.data, name@);
        }
        let mut k: usize = 0;
        while k < self.data.len()
            invariant
                k <= self.data.len(),
                self@.data.len() == self.data.len(),
                forall|j: int| 0 <= j < self.data@.len() ==> #[trigger] self@.data[j]
                    == self.data@[j]@,
                -1 <= image_index_of(self@.data, name@) < self@.data.len(),
                image_index_of(self@.data, name@) >= 0 ==> self@.data[image_index_of(
                    self@.data,
                    name@,
                )].name == name@,
                forall|j: int| 0 <= j < image_index_of(self@.data, name@) ==> self@.data[j].name
                    != name@,
                image_index_of(self@.data, name@) == -1 ==> forall|j: int|
                    0 <= j < self@.data.len() ==> self@.data[j].name != name@,
                forall|j: int| 0 <= j < k ==> self@.data[j].name != name@,
            decreases self.data.len() - k,
        {
            if self.data[k].name == *name {
                proof {
                    let li = image_index_of(self@.data, name@);
                    assert(self@.data[k as int] == self.data@[k as int]@);
                    assert(self@.data[k as int].name == name@);
                    if li != k as int {
                        assert(false);
                    }
                }
                return Some(k);
            }
            k = k + 1;
        }
        None
    }

    fn rebuild_with(&self, idx: usize, replacement: DatasetImage) -> (r: Vec<DatasetImage>)
        requires
            idx < self.data.len(),
        ensures
            images_view(r@) == images_view(self.data@).update(idx as int, replacement@),
    {
        let ghost target = images_view(self.data@).update(idx as int, replacement@);
        let mut data: Vec<DatasetImage> = Vec::new();
        let mut k: usize = 0;
        while k < self.data.len()
            invariant
                k <= self.data.len(),
                idx < self.data.len(),
                target == images_view(self.data@).update(idx as int, replacement@),
                images_view(data@) == target.subrange(0, k as int),
            decreases self.data.len() - k,
        {
            let ghost pre = data@;
            if k == idx {
                data.push(replacement.duplicate());
            } else {
                data.push(self.data[k].duplicate());
            }
            proof {
                lemma_images_view(pre);
                lemma_images_view(data@);
                lemma_images_view(self.data@);
                assert(images_view(data@) =~= target.subrange(0, k + 1 as int));
            }
            k = k + 1;
        }
        proof {
            lemma_images_view(self.data@);
            assert(target.subrange(0, self.data@.len() as int) =~= target);
        }
        data
    }

    /// The single file write that persists `image`'s tags: the sibling
    /// tag-file path, and the tags serialized by the codec.
    pub fn write_image_tags_for_file(image: &DatasetImage) -> (w: TagFileWrite)
        ensures
            w.path@ == paths::txt_path_of(image@.path),
            w.content@ == codec::join_tags(image@.tags),
    {
        TagFileWrite {
            path: paths::tag_file_path(image.path.as_str()),
            content: codec::serialize_tags(&image.tags),
        }
    }

    /// Replaces the tags of the image named `image.name` with `image`'s,
    /// returning the new snapshot and the file write that persists it. When
    /// no image of that name exists the caller has broken its contract:
    /// the result is the `ShouldBeImpossible` failure and this snapshot
    /// stands unchanged.
    pub fn update_image(&self, image: &DatasetImage) -> (r: Result<
        (Dataset, TagFileWrite),
        DatasetError,
    >)
        ensures
            r is Ok <==> image_index_of(self@.data, image@.name) >= 0,
            r is Ok ==> ({
                let (d, w) = r->Ok_0;
                &&& d@.name == self@.name
                &&& d@.path == self@.path
                &&& d@.data == self@.data.update(image_index_of(self@.data, image@.name), image@)
                &&& w.path@ == paths::txt_path_of(image@.path)
                &&& w.content@ == codec::join_tags(image@.tags)
            }),
            r is Err ==> r->Err_0.type_ == DatasetErrorType::ShouldBeImpossible && r->Err_0.path
                is None,
    {
        match self.find_image(&image.name) {
            Some(idx) => {
                let data = self.rebuild_with(idx, image.duplicate());
                let w = Dataset::write_image_tags_for_file(image);
                let d = Dataset { name: self.name.clone(), path: self.path.clone(), data };
                Ok((d, w))
            },
            None => Err(DatasetError::new(DatasetErrorType::ShouldBeImpossible, None)),
        }
    }

    /// Removes the first occurrence of `tag` from the tags of the image
    /// named `image_name`. An unknown image name is tolerated as a no-op:
    /// the result is an equal snapshot with no write to perform. A known
    /// image without that tag is a broken caller contract: the result is
    /// the `ShouldBeImpossible` failure. Otherwise the new snapshot drops
    /// the tag and the returned write persists the shortened tag list.
    pub fn delete_image_tag(&self, tag: String, image_name: String) -> (r: Result<
        (Dataset, Option<TagFileWrite>),
        DatasetError,
    >)
        ensures
            ({
                let i = image_index_of(self@.data, image_name@);
                &&& i == -1 ==> r is Ok && r->Ok_0.0@ == self@ && r->Ok_0.1 is None
                &&& i >= 0 ==> ({
                    let j = tag_index_of(self@.data[i].tags, tag@);
                    &&& j == -1 ==> r is Err && r->Err_0.type_
                        == DatasetErrorType::ShouldBeImpossible && r->Err_0.path is None
                    &&& j >= 0 ==> ({
                        let nt = self@.data[i].tags.remove(j);
                        let (d, w) = r->Ok_0;
                        &&& r is Ok
                        &&& d@.name == self@.name
                        &&& d@.path == self@.path
                        &&& d@.data == self@.data.update(
                            i,
                            ImageView {
                                name: self@.data[i].name,
                                path: self@.data[i].path,
                                tags: nt,
                            },
                        )
                        &&& w is Some
                        &&& w->0.path@ == paths::txt_path_of(self@.data[i].path)
                        &&& w->0.content@ == codec::join_tags(nt)
                    })
                })
            }),
    {
        match self.find_image(&image_name) {
            Some(idx) => {
                proof {
                    lemma_images_view(self.data@);
                }
                match Self::find_tag(&self.data[idx].tags, &tag) {
                    Some(j) => {
                        let mut nt = clone_string_vec(&self.data[idx].tags);
                        nt.remove(j);
                        proof {
                            assert(nt.deep_view() =~= self@.data[image_index_of(
                                self@.data,
                                image_name@,
                            )].tags.remove(
                                tag_index_of(
                                    self@.data[image_index_of(self@.data, image_name@)].tags,
                                    tag@,
                                ),
                            ));
                        }
                        let image = DatasetImage {
                            name: self.data[idx].name.clone(),
                            path: self.data[idx].path.clone(),
                            tags: nt,
                        };
                        let w = Dataset::write_image_tags_for_file(&image);
                        let data = self.rebuild_with(idx, image);
                        let d = Dataset { name: self.name.clone(), path: self.path.clone(), data };
                        Ok((d, Some(w)))
                    },
                    None => Err(DatasetError::new(DatasetErrorType::ShouldBeImpossible, None)),
                }
            },
            None => Ok((self.duplicate(), None)),
        }
    }

    fn find_tag(tags: &Vec<String>, tag: &String) -> (r: Option<usize>)
        ensures
            match r {
                Some(j) => j < tags.len() && tag_index_of(tags.deep_view(), tag@) == j as int,
                None => tag_index_of(tags.deep_view(), tag@) == -1,
            },
    {
        proof {
            lemma_tag_index_of(tags.deep_view(), tag@);
        }
        let mut k: usize = 0;
        while k < tags.len()
            invariant
                k <= tags.len(),
                tags.deep_view().len() == tags.len(),
                forall|j: int| 0 <= j < tags@.len() ==> #[trigger] tags.deep_view()[j]
                    == tags@[j]@,
                -1 <= tag_index_of(tags.deep_view(), tag@) < tags.len(),
                tag_index_of(tags.deep_view(), tag@) >= 0 ==> tags.deep_view()[tag_index_of(
                    tags.deep_view(),
                    tag@,
                )] == tag@,
                forall|j: int| 0 <= j < tag_index_of(tags.deep_view(), tag@)
                    ==> tags.deep_view()[j] != tag@,
                tag_index_of(tags.deep_view(), tag@) == -1 ==> forall|j: int|
                    0 <= j < tags.deep_view().len() ==> tags.deep_view()[j] != tag@,
                forall|j: int| 0 <= j < k ==> tags.deep_view()[j] != tag@,
            decreases tags.len() - k,
        {
            if tags[k] == *tag {
                proof {
                    let li = tag_index_of(tags.deep_view(), tag@);
                    assert(tags.deep_view()[k as int] == tags@[k as int]@);
                    assert(tags.deep_view()[k as int] == tag@);
                    if li != k as int {
                        assert(false);
                    }
                }
                return Some(k);
            }
            k = k + 1;
        }
        None
    }

    /// The batch of file writes that persists every image's tags: one write
    /// per image, in order, each carrying that image's serialized tag list.
    pub fn save_image_tags(&self) -> (w: Vec<TagFileWrite>)
        ensures
            w.len() == self@.data.len(),
            forall|k: int| 0 <= k < w@.len() ==> #[trigger] w@[k].path@ == paths::txt_path_of(
                self@.data[k].path,
            ) && w@[k].content@ == codec::join_tags(self@.data[k].tags),
    {
        proof {
            lemma_images_view(self.data@);
        }
        let mut w: Vec<TagFileWrite> = Vec::new();
        let mut k: usize = 0;
        while k < self.data.len()
            invariant
                k <= self.data.len(),
                w.len() == k,
                self@.data.len() == self.data.len(),
                forall|j: int| 0 <= j < self.data@.len() ==> #[trigger] self@.data[j]
                    == self.data@[j]@,
                forall|j: int| 0 <= j < k ==> #[trigger] w@[j].path@ == paths::txt_path_of(
                    self@.data[j].path,
                ) && w@[j].content@ == codec::join_tags(self@.data[j].tags),
            decreases self.data.len() - k,
        {
            w.push(Dataset::write_image_tags_for_file(&self.data[k]));
            proof {
                assert(self@.data[k as int] == self.data@[k as int]@);
                assert(w@[k as int].path@ == paths::txt_path_of(self@.data[k as int].path));
                assert(w@[k as int].content@ == codec::join_tags(self@.data[k as int].tags));
            }
            k = k + 1;
        }
        w
    }
}

/// One immediate entry of a directory listing, as the caller found it:
/// the entry's base name, its full path, and whether it is a regular file.
pub struct DirEntry {
    pub name: String,
    pub path: String,
    pub is_file: bool,
}

/// The mathematical value of a `DirEntry`.
pub struct EntryView {
    pub name: Seq<char>,
    pub path: Seq<char>,
    pub is_file: bool,
}

impl View for DirEntry {
    type V = EntryView;

    open spec fn view(&self) -> EntryView {
        EntryView { name: self.name@, path: self.path@, is_file: self.is_file }
    }
}

/// The entries of a directory listing, as mathematical values.
pub open spec fn entries_view(entries: Seq<DirEntry>) -> Seq<EntryView> {
    entries.map_values(|e: DirEntry| e@)
}

proof fn lemma_entries_view(entries: Seq<DirEntry>)
    ensures
        entries_view(entries).len() == entries.len(),
        forall|i: int| 0 <= i < entries.len() ==> #[trigger] entries_view(entries)[i]
            == entries[i]@,
{
}

/// Whether a directory entry is taken into the dataset: a regular file
/// whose extension marks an image. Everything else is silently skipped.
pub open spec fn entry_qualifies(e: EntryView) -> bool {
    e.is_file && paths::is_image_path(e.path)
}

/// A qualifying image file found by a scan, together with the tag-file
/// path the caller must read, creating the file empty when it is absent.
pub struct PlannedImage {
    pub name: String,
    pub path: String,
    pub tag_path: String,
}

/// The mathematical value of a `PlannedImage`.
pub struct PlanView {
    pub name: Seq<char>,
    pub path: Seq<char>,
    pub tag_path: Seq<char>,
}

impl View for PlannedImage {
    type V = PlanView;

    open spec fn view(&self) -> PlanView {
        PlanView { name: self.name@, path: self.path@, tag_path: self.tag_path@ }
    }
}

/// The planned images, as mathematical values.
pub open spec fn plans_view(plans: Seq<PlannedImage>) -> Seq<PlanView> {
    plans.map_values(|p: PlannedImage| p@)
}

proof fn lemma_plans_view(plans: Seq<PlannedImage>)
    ensures
        plans_view(plans).len() == plans.len(),
        forall|i: int| 0 <= i < plans.len() ==> #[trigger] plans_view(plans)[i] == plans[i]@,
{
}

/// The plan entry derived from one qualifying directory entry.
pub open spec fn plan_item_of(e: EntryView) -> PlanView {
    PlanView { name: e.name, path: e.path, tag_path: paths::txt_path_of(e.path) }
}

/// The scan plan for a directory listing: one planned image per qualifying
/// entry, in listing order.
pub open spec fn plan_of(entries: Seq<EntryView>) -> Seq<PlanView> {
    entries.filter(|e: EntryView| entry_qualifies(e)).map_values(|e: EntryView| plan_item_of(e))
}

proof fn lemma_plan_of_push(es: Seq<EntryView>, e: EntryView)
    ensures
        entry_qualifies(e) ==> plan_of(es.push(e)) == plan_of(es).push(plan_item_of(e)),
        !entry_qualifies(e) ==> plan_of(es.push(e)) == plan_of(es),
{
    reveal(Seq::filter);
    assert(es.push(e).drop_last() =~= es);
    assert(es.push(e).last() == e);
    if entry_qualifies(e) {
        assert(plan_of(es.push(e)) =~= plan_of(es).push(plan_item_of(e)));
    } else {
        assert(plan_of(es.push(e)) =~= plan_of(es));
    }
}

/// Lists the image files among a directory's entries: every regular file
/// with an image extension, in listing order, each paired with the sibling
/// tag-file path to read. Non-image files and subdirectories are silently
/// skipped; they are not errors.
pub fn scan_plan(entries: &Vec<DirEntry>) -> (r: Vec<PlannedImage>)
    ensures
        plans_view(r@) == plan_of(entries_view(entries@)),
{
    let ghost evs = entries_view(entries@);
    let mut r: Vec<PlannedImage> = Vec::new();
    let mut k: usize = 0;
    proof {
        lemma_entries_view(entries@);
        reveal(Seq::filter);
        assert(evs.subrange(0, 0) =~= Seq::<EntryView>::empty());
        assert(plans_view(r@) =~= plan_of(evs.subrange(0, 0)));
    }
    while k < entries.len()
        invariant
            k <= entries.len(),
            evs == entries_view(entries@),
            evs.len() == entries.len(),
            forall|i: int| 0 <= i < entries.len() ==> #[trigger] evs[i] == entries@[i]@,
            plans_view(r@) == plan_of(evs.subrange(0, k as int)),
        decreases entries.len() - k,
    {
        let e = &entries[k];
        proof {
            assert(evs.subrange(0, k + 1 as int) =~= evs.subrange(0, k as int).push(
                evs[k as int],
            ));
            lemma_plan_of_push(evs.subrange(0, k as int), evs[k as int]);
        }
        if e.is_file && paths::is_image_file(e.path.as_str()) {
            let ghost pre = r@;
            r.push(
                PlannedImage {
                    name: e.name.clone(),
                    path: e.path.clone(),
                    tag_path: paths::tag_file_path(e.path.as_str()),
                },
            );
            proof {
                lemma_plans_view(pre);
                lemma_plans_view(r@);
                assert(plans_view(r@) =~= plans_view(pre).push(plan_item_of(evs[k as int])));
            }
        }
        k = k + 1;
    }
    proof {
        assert(evs.subrange(0, entries@.len() as int) =~= evs);
    }
    r
}

/// A planned image together with the text its tag file held; a tag file
/// that had to be created holds the empty text.
pub struct ScannedImage {
    pub name: String,
    pub path: String,
    pub tag_content: String,
}

/// The mathematical value of a `ScannedImage`.
pub struct ScanView {
    pub name: Seq<char>,
    pub path: Seq<char>,
    pub content: Seq<char>,
}

impl View for ScannedImage {
    type V = ScanView;

    open spec fn view(&self) -> ScanView {
        ScanView { name: self.name@, path: self.path@, content: self.tag_content@ }
    }
}

/// The scanned images, as mathematical values.
pub open spec fn scans_view(scans: Seq<ScannedImage>) -> Seq<ScanView> {
    scans.map_values(|s: ScannedImage| s@)
}

proof fn lemma_scans_view(scans: Seq<ScannedImage>)
    ensures
        scans_view(scans).len() == scans.len(),
        forall|i: int| 0 <= i < scans.len() ==> #[trigger] scans_view(scans)[i] == scans[i]@,
{
}

/// The image built from one scanned file: its tags are the ones the codec
/// parses out of the tag file's text.
pub open spec fn image_of_scan(s: ScanView) -> ImageView {
    ImageView { name: s.name, path: s.path, tags: codec::parse_tags(s.content) }
}

/// The images built from a whole scan, in order.
pub open spec fn images_of_scans(scans: Seq<ScanView>) -> Seq<ImageView> {
    scans.map_values(|s: ScanView| image_of_scan(s))
}

impl Dataset {
    /// Assembles the snapshot of a scanned directory from its name, its
    /// path, and the scanned image files: one image per scanned file, in
    /// order, each with the tags parsed from its tag file's text.
    pub fn from_parts(name: String, path: String, images: Vec<ScannedImage>) -> (d: Dataset)
        ensures
            d@.name == name@,
            d@.path == path@,
            d@.data == images_of_scans(scans_view(images@)),
    {
        let ghost svs = scans_view(images@);
        let ghost target = images_of_scans(svs);
        let mut data: Vec<DatasetImage> = Vec::new();
        let mut k: usize = 0;
        proof {
            lemma_scans_view(images@);
            assert(images_view(data@) =~= target.subrange(0, 0));
        }
        while k < images.len()
            invariant
                k <= images.len(),
                svs == scans_view(images@),
                target == images_of_scans(svs),
                target.len() == images.len(),
                svs.len() == images.len(),
                forall|i: int| 0 <= i < images.len() ==> #[trigger] svs[i] == images@[i]@,
                forall|i: int| 0 <= i < images.len() ==> #[trigger] target[i] == image_of_scan(
                    svs[i],
                ),
                images_view(data@) == target.subrange(0, k as int),
            decreases images.len() - k,
        {
            let s = &images[k];
            let ghost pre = data@;
            data.push(
                DatasetImage {
                    name: s.name.clone(),
                    path: s.path.clone(),
                    tags: codec::deserialize_tags(s.tag_content.as_str()),
                },
            );
            proof {
                lemma_images_view(pre);
                lemma_images_view(data@);
                assert(data@[k as int]@ == image_of_scan(svs[k as int]));
                assert(images_view(data@) =~= target.subrange(0, k + 1 as int));
            }
            k = k + 1;
        }
        proof {
            assert(target.subrange(0, images@.len() as int) =~= target);
        }
        Dataset { name, path, data }
    }
}

} // verus!
