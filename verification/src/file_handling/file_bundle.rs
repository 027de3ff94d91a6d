//! The registry of committed bundles: three levels, the newest bundle of a
//! level in front. A bundle is the three files of one sorted-string table.
use std::collections::HashSet;
use std::collections::VecDeque;
use vstd::prelude::*;
use vstd::string::StringExecFns;

verus! {

/// The number of bundles at which the first level calls for compaction.
pub const L0_COMPACTION_THRESHOLD: usize = 4;

/// The number of bundles at which the second level calls for compaction.
pub const L1_COMPACTION_THRESHOLD: usize = 8;

/// A tier of the store. Data moves from `L0` towards `L2`.
#[derive(Debug, Copy, Clone, PartialEq, Eq, Structural)]
pub enum Level {
    L0,
    L1,
    L2,
}

impl Level {
    /// The level that this one is compacted into; the last level has none.
    pub fn next_level(&self) -> (next: Option<Self>)
        ensures
            next == self.spec_next_level(),
    {
        match self {
            Level::L0 => Some(Level::L1),
            Level::L1 => Some(Level::L2),
            Level::L2 => None,
        }
    }

    /// The level that this one is compacted into.
    pub open spec fn spec_next_level(self) -> Option<Level> {
        match self {
            Level::L0 => Some(Level::L1),
            Level::L1 => Some(Level::L2),
            Level::L2 => None,
        }
    }

    /// The name of the level in file names.
    pub open spec fn spec_name(self) -> Seq<char> {
        match self {
            Level::L0 => seq!['L', '0'],
            Level::L1 => seq!['L', '1'],
            Level::L2 => seq!['L', '2'],
        }
    }

    /// The name of the level in file names.
    pub fn name(&self) -> (name: &'static str)
        ensures
            name@ == self.spec_name(),
    {
        proof {
            reveal_strlit("L0");
            reveal_strlit("L1");
            reveal_strlit("L2");
        }
        match self {
            Level::L0 => {
                assert("L0"@ =~= seq!['L', '0']);
                "L0"
            },
            Level::L1 => {
                assert("L1"@ =~= seq!['L', '1']);
                "L1"
            },
            Level::L2 => {
                assert("L2"@ =~= seq!['L', '2']);
                "L2"
            },
        }
    }
}

/// Which of the three files of a bundle.
#[derive(Debug, Copy, Clone, PartialEq, Eq, Structural)]
pub enum FileKind {
    Data,
    Index,
    Bloom,
}

impl FileKind {
    /// The name of the kind in file names.
    pub open spec fn spec_name(self) -> Seq<char> {
        match self {
            FileKind::Data => seq!['d', 'a', 't', 'a'],
            FileKind::Index => seq!['i', 'n', 'd', 'e', 'x'],
            FileKind::Bloom => seq!['b', 'l', 'o', 'o', 'm'],
        }
    }

    /// The name of the kind in file names.
    pub fn name(&self) -> (name: &'static str)
        ensures
            name@ == self.spec_name(),
    {
        proof {
            reveal_strlit("data");
            reveal_strlit("index");
            reveal_strlit("bloom");
        }
        match self {
            FileKind::Data => {
                assert("data"@ =~= seq!['d', 'a', 't', 'a']);
                "data"
            },
            FileKind::Index => {
                assert("index"@ =~= seq!['i', 'n', 'd', 'e', 'x']);
                "index"
            },
            FileKind::Bloom => {
                assert("bloom"@ =~= seq!['b', 'l', 'o', 'o', 'm']);
                "bloom"
            },
        }
    }
}

/// The character of a decimal digit.
pub open spec fn spec_digit(d: nat) -> char {
    if d == 0 {
        '0'
    } else if d == 1 {
        '1'
    } else if d == 2 {
        '2'
    } else if d == 3 {
        '3'
    } else if d == 4 {
        '4'
    } else if d == 5 {
        '5'
    } else if d == 6 {
        '6'
    } else if d == 7 {
        '7'
    } else if d == 8 {
        '8'
    } else {
        '9'
    }
}

/// A number in decimal digits, without leading zeros.
pub open spec fn spec_decimal(n: nat) -> Seq<char>
    decreases n,
{
    if n < 10 {
        seq![spec_digit(n)]
    } else {
        spec_decimal(n / 10).push(spec_digit(n % 10))
    }
}

/// The name of a file of a bundle: level, kind and sequence number, as in
/// `L0-data-3.db`.
pub open spec fn spec_file_name(level: Level, kind: FileKind, seq: nat) -> Seq<char> {
    level.spec_name() + seq!['-'] + kind.spec_name() + seq!['-'] + spec_decimal(seq) + seq![
        '.',
        'd',
        'b',
    ]
}

fn digit_text(d: usize) -> (text: &'static str)
    requires
        d < 10,
    ensures
        text@ == seq![spec_digit(d as nat)],
{
    proof {
        reveal_strlit("0");
        reveal_strlit("1");
        reveal_strlit("2");
        reveal_strlit("3");
        reveal_strlit("4");
        reveal_strlit("5");
        reveal_strlit("6");
        reveal_strlit("7");
        reveal_strlit("8");
        reveal_strlit("9");
    }
    let text = if d == 0 {
        "0"
    } else if d == 1 {
        "1"
    } else if d == 2 {
        "2"
    } else if d == 3 {
        "3"
    } else if d == 4 {
        "4"
    } else if d == 5 {
        "5"
    } else if d == 6 {
        "6"
    } else if d == 7 {
        "7"
    } else if d == 8 {
        "8"
    } else {
        "9"
    };
    assert(text@ =~= seq![spec_digit(d as nat)]);
    text
}

/// Appends `n` in decimal digits.
pub fn push_decimal(out: &mut String, n: usize)
    ensures
        final(out)@ == old(out)@ + spec_decimal(n as nat),
    decreases n,
{
    if n >= 10 {
        push_decimal(out, n / 10);
    }
    let ghost before = out@;
    out.append(digit_text(n % 10));
    assert(out@ =~= old(out)@ + spec_decimal(n as nat));
}

/// The name of a file of a bundle.
pub fn file_name(level: Level, kind: FileKind, seq: usize) -> (name: String)
    ensures
        name@ == spec_file_name(level, kind, seq as nat),
{
    proof {
        reveal_strlit("-");
        reveal_strlit(".db");
    }
    let mut name = String::from_str(level.name());
    name.append("-");
    name.append(kind.name());
    name.append("-");
    push_decimal(&mut name, seq);
    name.append(".db");
    assert("-"@ =~= seq!['-']);
    assert(".db"@ =~= seq!['.', 'd', 'b']);
    assert(name@ =~= spec_file_name(level, kind, seq as nat));
    name
}

/// The identity of a bundle: the 128 bits of a random UUID.
#[derive(Debug, Copy, Clone, Hash, PartialEq, Eq, Structural)]
pub struct FileBundleId(pub u128);

/// Calls `uuid::Uuid::new_v4` and `Uuid::as_u128` on what it returns: 128
/// bits from the system's random source, of which the version is set to 4
/// and the variant to RFC 4122. It panics where the system has no random
/// bytes to give.
#[verifier::external_body]
fn random_uuid() -> (id: u128)
    ensures
        id & 0x0000_0000_0000_f000_c000_0000_0000_0000 == 0x0000_0000_0000_4000_8000_0000_0000_0000,
{
    uuid::Uuid::new_v4().as_u128()
}

impl FileBundleId {
    /// A fresh random identity: 128 random bits, but for the marks of a
    /// version 4 UUID.
    pub fn new() -> (id: Self)
        ensures
            id.0 & 0x0000_0000_0000_f000_c000_0000_0000_0000
                == 0x0000_0000_0000_4000_8000_0000_0000_0000,
    {
        FileBundleId(random_uuid())
    }
}

/// What a bundle is, as mathematical values.
pub struct BundleView {
    pub id: u128,
    pub data: Seq<char>,
    pub index: Seq<char>,
    pub bloom: Seq<char>,
    pub level: Level,
    pub number: nat,
}

impl BundleView {
    /// The three files carry the names that the registry gives to the
    /// bundle of this level and number.
    pub open spec fn named(self) -> bool {
        &&& self.data == spec_file_name(self.level, FileKind::Data, self.number)
        &&& self.index == spec_file_name(self.level, FileKind::Index, self.number)
        &&& self.bloom == spec_file_name(self.level, FileKind::Bloom, self.number)
    }
}

/// A bundle: its identity, the names of its three files in the registry's
/// directory, its level, and the number that the registry gave it there.
#[derive(Debug)]
pub struct FileBundle {
    id: FileBundleId,
    main_data_file_path: String,
    index_file_path: String,
    bloom_filter_file_path: String,
    level: Level,
    number: usize,
}

impl View for FileBundle {
    type V = BundleView;

    closed spec fn view(&self) -> BundleView {
        BundleView {
            id: self.id.0,
            data: self.main_data_file_path@,
            index: self.index_file_path@,
            bloom: self.bloom_filter_file_path@,
            level: self.level,
            number: self.number as nat,
        }
    }
}

impl Clone for FileBundle {
    fn clone(&self) -> (r: Self)
        ensures
            r@ == self@,
    {
        FileBundle {
            id: self.id,
            main_data_file_path: self.main_data_file_path.clone(),
            index_file_path: self.index_file_path.clone(),
            bloom_filter_file_path: self.bloom_filter_file_path.clone(),
            level: self.level,
            number: self.number,
        }
    }
}

impl FileBundle {
    /// A bundle of the given parts.
    pub fn new(
        id: FileBundleId,
        main_data_file_path: String,
        index_file_path: String,
        bloom_filter_file_path: String,
        level: Level,
        number: usize,
    ) -> (r: Self)
        ensures
            r@ == (BundleView {
                id: id.0,
                data: main_data_file_path@,
                index: index_file_path@,
                bloom: bloom_filter_file_path@,
                level,
                number: number as nat,
            }),
    {
        FileBundle {
            id,
            main_data_file_path,
            index_file_path,
            bloom_filter_file_path,
            level,
            number,
        }
    }

    /// The number that the registry gave the bundle at its level.
    pub fn number(&self) -> (number: usize)
        ensures
            number == self@.number,
    {
        self.number
    }

    /// The identity of the bundle.
    pub fn id(&self) -> (id: FileBundleId)
        ensures
            id.0 == self@.id,
    {
        self.id
    }

    /// The level of the bundle.
    pub fn level(&self) -> (level: Level)
        ensures
            level == self@.level,
    {
        self.level
    }

    /// The data file.
    pub fn main_data_file_path(&self) -> (path: &String)
        ensures
            path@ == self@.data,
    {
        &self.main_data_file_path
    }

    /// The index file.
    pub fn index_file_path(&self) -> (path: &String)
        ensures
            path@ == self@.index,
    {
        &self.index_file_path
    }

    /// The Bloom filter file.
    pub fn bloom_filter_file_path(&self) -> (path: &String)
        ensures
            path@ == self@.bloom,
    {
        &self.bloom_filter_file_path
    }
}

/// The three files of a visible bundle, as a reader needs them.
#[derive(Debug)]
pub struct SstFileBundle {
    pub main_data_file_path: String,
    pub index_file_path: String,
    pub bloom_filter_file_path: String,
}

/// The names of the three files of a bundle.
pub struct FilesView {
    pub data: Seq<char>,
    pub index: Seq<char>,
    pub bloom: Seq<char>,
}

impl View for SstFileBundle {
    type V = FilesView;

    open spec fn view(&self) -> FilesView {
        FilesView {
            data: self.main_data_file_path@,
            index: self.index_file_path@,
            bloom: self.bloom_filter_file_path@,
        }
    }
}

impl BundleView {
    /// The three files of the bundle.
    pub open spec fn files(self) -> FilesView {
        FilesView { data: self.data, index: self.index, bloom: self.bloom }
    }
}

impl SstFileBundle {
    /// The three files of `value`.
    pub fn from(value: &FileBundle) -> (r: Self)
        ensures
            r@ == value@.files(),
    {
        SstFileBundle {
            main_data_file_path: value.main_data_file_path.clone(),
            index_file_path: value.index_file_path.clone(),
            bloom_filter_file_path: value.bloom_filter_file_path.clone(),
        }
    }
}

/// A bundle that the registry has named and does not show yet. Who holds it
/// may write its three files; committing it hands it to the registry.
#[derive(Debug)]
pub struct UncommittedFileBundle(FileBundle);

impl View for UncommittedFileBundle {
    type V = BundleView;

    closed spec fn view(&self) -> BundleView {
        self.0@
    }
}

impl FileBundle {
    /// The bundle that `value` stands for, ready to be committed.
    pub fn from(value: UncommittedFileBundle) -> (bundle: Self)
        ensures
            bundle@ == value@,
    {
        value.0
    }
}

impl UncommittedFileBundle {
    /// The bundle that is to be committed.
    pub fn into_inner(self) -> (bundle: FileBundle)
        ensures
            bundle@ == self@,
    {
        self.0
    }

    /// The level that the bundle is for.
    pub fn level(&self) -> (level: Level)
        ensures
            level == self@.level,
    {
        self.0.level
    }

    /// The identity of the bundle.
    pub fn id(&self) -> (id: FileBundleId)
        ensures
            id.0 == self@.id,
    {
        self.0.id
    }

    /// The number that the registry gave the bundle at its level.
    pub fn number(&self) -> (number: usize)
        ensures
            number == self@.number,
    {
        self.0.number
    }

    /// The data file to write.
    pub fn main_data_file_path(&self) -> (path: &String)
        ensures
            path@ == self@.data,
    {
        &self.0.main_data_file_path
    }

    /// The index file to write.
    pub fn index_file_path(&self) -> (path: &String)
        ensures
            path@ == self@.index,
    {
        &self.0.index_file_path
    }

    /// The Bloom filter file to write.
    pub fn bloom_filter_file_path(&self) -> (path: &String)
        ensures
            path@ == self@.bloom,
    {
        &self.0.bloom_filter_file_path
    }
}

/// Whether a level has grown to where it is to be compacted.
#[derive(Debug, Copy, Clone, PartialEq, Eq, Structural)]
pub enum ShouldCompact {
    Yes,
    No,
}

/// The views of a sequence of bundles.
pub open spec fn views_of(bundles: Seq<FileBundle>) -> Seq<BundleView> {
    Seq::new(bundles.len(), |i: int| bundles[i]@)
}

/// The committed bundles by level, each level newest first, and the
/// directory that holds their files.
#[derive(Debug)]
pub struct FileBundlesLevelled {
    pub base_path: String,
    pub l0: VecDeque<FileBundle>,
    pub l1: VecDeque<FileBundle>,
    pub l2: VecDeque<FileBundle>,
    /// The number of the next bundle of each level. It only grows.
    pub next_l0: usize,
    pub next_l1: usize,
    pub next_l2: usize,
}

/// The bundles of `bundles`, in their order, whose identity is in `ids`
/// (`listed`), or those whose identity is not (`!listed`).
pub open spec fn spec_select(bundles: Seq<BundleView>, ids: Set<u128>, listed: bool) -> Seq<
    BundleView,
>
    decreases bundles.len(),
{
    if bundles.len() == 0 {
        Seq::empty()
    } else {
        let before = spec_select(bundles.drop_last(), ids, listed);
        if ids.contains(bundles.last().id) == listed {
            before.push(bundles.last())
        } else {
            before
        }
    }
}

/// The file names of a sequence of bundles.
pub open spec fn spec_files(bundles: Seq<BundleView>) -> Seq<FilesView> {
    Seq::new(bundles.len(), |i: int| bundles[i].files())
}

/// The file names that a vector of reader's bundles holds.
pub open spec fn files_of(bundles: Seq<SstFileBundle>) -> Seq<FilesView> {
    Seq::new(bundles.len(), |i: int| bundles[i]@)
}

/// No file of the one bundle has the name of a file of the other.
pub open spec fn names_apart(a: BundleView, b: BundleView) -> bool {
    &&& a.data != b.data
    &&& a.data != b.index
    &&& a.data != b.bloom
    &&& a.index != b.data
    &&& a.index != b.index
    &&& a.index != b.bloom
    &&& a.bloom != b.data
    &&& a.bloom != b.index
    &&& a.bloom != b.bloom
}

/// No file of a bundle of `gone` has the name of a file of a bundle of
/// `kept`.
pub open spec fn all_apart(gone: Seq<BundleView>, kept: Seq<BundleView>) -> bool {
    forall|i: int, j: int|
        0 <= i < gone.len() && 0 <= j < kept.len() ==> names_apart(
            #[trigger] gone[i],
            #[trigger] kept[j],
        )
}

/// The registry as mathematical values.
pub struct RegistryView {
    pub base_path: Seq<char>,
    pub l0: Seq<BundleView>,
    pub l1: Seq<BundleView>,
    pub l2: Seq<BundleView>,
    pub next_l0: nat,
    pub next_l1: nat,
    pub next_l2: nat,
}

/// Every bundle of `bundles` belongs to `level`, carries the names of its
/// number, and its number is below `counter`.
pub open spec fn numbered_below(bundles: Seq<BundleView>, level: Level, counter: nat) -> bool {
    forall|i: int|
        0 <= i < bundles.len() ==> (#[trigger] bundles[i]).level == level && bundles[i].named()
            && bundles[i].number < counter
}

/// No two bundles of `bundles` carry the same number.
pub open spec fn numbers_differ(bundles: Seq<BundleView>) -> bool {
    forall|i: int, j: int|
        0 <= i < j < bundles.len() ==> (#[trigger] bundles[i]).number != (
        #[trigger] bundles[j]).number
}

/// No bundle of `bundles` carries the number `number`.
pub open spec fn number_free(bundles: Seq<BundleView>, number: nat) -> bool {
    forall|i: int| 0 <= i < bundles.len() ==> (#[trigger] bundles[i]).number != number
}

impl RegistryView {
    /// The bundles of one level, newest first.
    pub open spec fn level(self, level: Level) -> Seq<BundleView> {
        match level {
            Level::L0 => self.l0,
            Level::L1 => self.l1,
            Level::L2 => self.l2,
        }
    }

    /// The registry with the bundles of one level replaced.
    pub open spec fn with_level(self, level: Level, bundles: Seq<BundleView>) -> RegistryView {
        match level {
            Level::L0 => RegistryView { l0: bundles, ..self },
            Level::L1 => RegistryView { l1: bundles, ..self },
            Level::L2 => RegistryView { l2: bundles, ..self },
        }
    }

    /// Every bundle a reader sees, in the order in which it consults them:
    /// the first level front to back, then the second, then the third.
    pub open spec fn visible(self) -> Seq<BundleView> {
        self.l0 + self.l1 + self.l2
    }

    /// The number that the next bundle of `level` gets.
    pub open spec fn counter(self, level: Level) -> nat {
        match level {
            Level::L0 => self.next_l0,
            Level::L1 => self.next_l1,
            Level::L2 => self.next_l2,
        }
    }

    /// Every listed bundle stands in its own level under the names of its
    /// number, its number is below the counter of the level, and no two
    /// bundles of a level carry the same number: the counter has passed
    /// every number that is in use, and each is in use once.
    pub open spec fn wf(self) -> bool {
        &&& numbered_below(self.l0, Level::L0, self.next_l0)
        &&& numbered_below(self.l1, Level::L1, self.next_l1)
        &&& numbered_below(self.l2, Level::L2, self.next_l2)
        &&& numbers_differ(self.l0)
        &&& numbers_differ(self.l1)
        &&& numbers_differ(self.l2)
    }

    /// `bundle` may be committed: it carries the names of a number that the
    /// registry has given out at its level, and no listed bundle of the
    /// level carries that number.
    pub open spec fn accepts(self, bundle: BundleView) -> bool {
        &&& bundle.named()
        &&& bundle.number < self.counter(bundle.level)
        &&& number_free(self.level(bundle.level), bundle.number)
    }

    /// The bundle that is made next at `level` with identity `id`: its
    /// files are numbered by the counter of the level.
    pub open spec fn next_bundle(self, level: Level, id: u128) -> BundleView {
        BundleView {
            id,
            data: spec_file_name(level, FileKind::Data, self.counter(level)),
            index: spec_file_name(level, FileKind::Index, self.counter(level)),
            bloom: spec_file_name(level, FileKind::Bloom, self.counter(level)),
            level,
            number: self.counter(level),
        }
    }

    /// The registry after a bundle was named at `level`: the counter of the
    /// level has grown by one.
    pub open spec fn named(self, level: Level) -> RegistryView {
        match level {
            Level::L0 => RegistryView { next_l0: self.next_l0 + 1, ..self },
            Level::L1 => RegistryView { next_l1: self.next_l1 + 1, ..self },
            Level::L2 => RegistryView { next_l2: self.next_l2 + 1, ..self },
        }
    }

    /// No file of `bundle` has the name of a file of a listed bundle, and
    /// its three files have three names.
    pub open spec fn fresh(self, bundle: BundleView) -> bool {
        &&& bundle.data != bundle.index
        &&& bundle.data != bundle.bloom
        &&& bundle.index != bundle.bloom
        &&& forall|i: int|
            0 <= i < self.visible().len() ==> names_apart(bundle, #[trigger] self.visible()[i])
    }

    /// No two listed bundles share an identity.
    pub open spec fn distinct_ids(self) -> bool {
        forall|i: int, j: int|
            0 <= i < j < self.visible().len() ==> (#[trigger] self.visible()[i]).id != (
            #[trigger] self.visible()[j]).id
    }

    /// The registry after `bundle` was committed: in front of its level.
    pub open spec fn commit(self, bundle: BundleView) -> RegistryView {
        self.with_level(bundle.level, seq![bundle] + self.level(bundle.level))
    }

    /// Whether a commit that makes a level hold `size` bundles calls for
    /// its compaction.
    pub open spec fn crossed(level: Level, size: nat) -> ShouldCompact {
        match level {
            Level::L0 => if size >= L0_COMPACTION_THRESHOLD {
                ShouldCompact::Yes
            } else {
                ShouldCompact::No
            },
            Level::L1 => if size >= L1_COMPACTION_THRESHOLD {
                ShouldCompact::Yes
            } else {
                ShouldCompact::No
            },
            Level::L2 => ShouldCompact::No,
        }
    }

    /// The registry without the bundles whose identity is in `ids`.
    pub open spec fn without(self, ids: Set<u128>) -> RegistryView {
        RegistryView {
            l0: spec_select(self.l0, ids, false),
            l1: spec_select(self.l1, ids, false),
            l2: spec_select(self.l2, ids, false),
            ..self
        }
    }

    /// The bundles whose identity is in `ids`, in the order of `visible`.
    pub open spec fn chosen(self, ids: Set<u128>) -> Seq<BundleView> {
        spec_select(self.l0, ids, true) + spec_select(self.l1, ids, true) + spec_select(
            self.l2,
            ids,
            true,
        )
    }
}

impl View for FileBundlesLevelled {
    type V = RegistryView;

    open spec fn view(&self) -> RegistryView {
        RegistryView {
            base_path: self.base_path@,
            l0: views_of(self.l0@),
            l1: views_of(self.l1@),
            l2: views_of(self.l2@),
            next_l0: self.next_l0 as nat,
            next_l1: self.next_l1 as nat,
            next_l2: self.next_l2 as nat,
        }
    }
}

/// Moves the bundles of `level` whose identity is in `ids` to the end of
/// `removed`, and keeps the others in their order.
fn split_level(level: &mut VecDeque<FileBundle>, ids: &HashSet<u128>, removed: &mut Vec<FileBundle>)
    ensures
        views_of(final(level)@) == spec_select(views_of(old(level)@), ids@, false),
        views_of(final(removed)@) == views_of(old(removed)@) + spec_select(
            views_of(old(level)@),
            ids@,
            true,
        ),
{
    let mut source: VecDeque<FileBundle> = VecDeque::new();
    std::mem::swap(level, &mut source);
    let ghost all = views_of(source@);
    let ghost gone = views_of(removed@);
    let ghost mut done: int = 0;
    assert(all.subrange(0, 0) =~= Seq::<BundleView>::empty());
    assert(views_of(level@) =~= Seq::<BundleView>::empty());
    assert(views_of(removed@) =~= gone + Seq::<BundleView>::empty());
    while source.len() > 0
        invariant
            0 <= done <= all.len(),
            views_of(source@) == all.subrange(done, all.len() as int),
            views_of(level@) == spec_select(all.subrange(0, done), ids@, false),
            views_of(removed@) == gone + spec_select(all.subrange(0, done), ids@, true),
        decreases source@.len(),
    {
        let ghost rest = views_of(source@);
        let ghost kept = views_of(level@);
        let ghost out = views_of(removed@);
        let ghost queue = source@;
        proof {
            assert(rest.len() == source@.len());
            assert(rest.len() == all.len() - done);
        }
        let bundle = source.pop_front().unwrap();
        proof {
            assert(bundle@ == rest[0]);
            assert(rest[0] == all[done]);
            assert(all.subrange(0, done + 1).drop_last() =~= all.subrange(0, done));
            assert(all.subrange(0, done + 1).last() == all[done]);
            assert forall|j: int| 0 <= j < source@.len() implies views_of(source@)[j] == all[done
                + 1 + j] by {
                assert(source@[j] == queue[j + 1]);
                assert(rest[j + 1] == queue[j + 1]@);
                assert(rest[j + 1] == all[done + (j + 1)]);
            }
            assert(views_of(source@) =~= all.subrange(done + 1, all.len() as int));
        }
        if ids.contains(&bundle.id.0) {
            removed.push(bundle);
            assert(views_of(removed@) =~= out.push(all[done]));
            assert(gone + spec_select(all.subrange(0, done), ids@, true).push(all[done]) =~= (gone
                + spec_select(all.subrange(0, done), ids@, true)).push(all[done]));
        } else {
            level.push_back(bundle);
            assert(views_of(level@) =~= kept.push(all[done]));
        }
        proof {
            done = done + 1;
        }
    }
    assert(all.subrange(0, all.len() as int) =~= all);
}

/// Appends the files of each bundle of `level` to `out`.
fn push_files(level: &VecDeque<FileBundle>, out: &mut Vec<SstFileBundle>)
    ensures
        files_of(final(out)@) == files_of(old(out)@) + spec_files(views_of(level@)),
{
    let ghost before = files_of(out@);
    let mut i: usize = 0;
    assert(files_of(out@) =~= before + spec_files(views_of(level@)).subrange(0, 0));
    while i < level.len()
        invariant
            i <= level@.len(),
            files_of(out@) == before + spec_files(views_of(level@)).subrange(0, i as int),
        decreases level@.len() - i,
    {
        let ghost sofar = files_of(out@);
        out.push(SstFileBundle::from(&level[i]));
        assert(files_of(out@) =~= sofar.push(level@[i as int]@.files()));
        assert(files_of(out@) =~= before + spec_files(views_of(level@)).subrange(0, i + 1));
        i += 1;
    }
    assert(spec_files(views_of(level@)).subrange(0, level@.len() as int) =~= spec_files(
        views_of(level@),
    ));
}

impl FileBundlesLevelled {
    /// An empty registry over the directory `base_path`.
    pub fn new(base_path: String) -> (r: Self)
        ensures
            r@ == (RegistryView {
                base_path: base_path@,
                l0: Seq::empty(),
                l1: Seq::empty(),
                l2: Seq::empty(),
                next_l0: 0,
                next_l1: 0,
                next_l2: 0,
            }),
            r@.wf(),
    {
        let r = FileBundlesLevelled {
            base_path,
            l0: VecDeque::with_capacity(L0_COMPACTION_THRESHOLD),
            l1: VecDeque::with_capacity(L0_COMPACTION_THRESHOLD),
            l2: VecDeque::with_capacity(L0_COMPACTION_THRESHOLD),
            next_l0: 0,
            next_l1: 0,
            next_l2: 0,
        };
        assert(r@.l0 =~= Seq::empty());
        assert(r@.l1 =~= Seq::empty());
        assert(r@.l2 =~= Seq::empty());
        r
    }

    /// The files of every visible bundle, in the order in which a reader
    /// consults them: the first level front to back, then the second, then
    /// the third.
    pub fn iter(&self) -> (files: Vec<SstFileBundle>)
        ensures
            files_of(files@) == spec_files(self@.visible()),
            files@.len() == self@.visible().len(),
    {
        let mut files: Vec<SstFileBundle> = Vec::new();
        assert(files_of(files@) =~= Seq::<FilesView>::empty());
        push_files(&self.l0, &mut files);
        push_files(&self.l1, &mut files);
        push_files(&self.l2, &mut files);
        assert(files_of(files@) =~= spec_files(self@.visible()));
        assert(files_of(files@).len() == files@.len());
        files
    }

    /// The number of bundles at `level`.
    pub fn level_len(&self, level: Level) -> (n: usize)
        ensures
            n == self@.level(level).len(),
    {
        match level {
            Level::L0 => self.l0.len(),
            Level::L1 => self.l1.len(),
            Level::L2 => self.l2.len(),
        }
    }

    /// The bundles of `level`, oldest first.
    pub fn oldest_first(&self, level: Level) -> (bundles: Vec<FileBundle>)
        ensures
            views_of(bundles@) == self@.level(level).reverse(),
            bundles@.len() == self@.level(level).len(),
    {
        let source = match level {
            Level::L0 => &self.l0,
            Level::L1 => &self.l1,
            Level::L2 => &self.l2,
        };
        assert(views_of(source@) == self@.level(level));
        let n: usize = source.len();
        let mut bundles: Vec<FileBundle> = Vec::with_capacity(n);
        let mut i: usize = 0;
        while i < n
            invariant
                n == source@.len(),
                i <= n,
                bundles@.len() == i,
                forall|j: int| 0 <= j < i ==> (#[trigger] bundles@[j])@ == source@[n - 1 - j]@,
            decreases n - i,
        {
            bundles.push(source[n - 1 - i].clone());
            i += 1;
        }
        assert(views_of(bundles@) =~= views_of(source@).reverse());
        bundles
    }

    /// The number that the next bundle of `level` gets.
    pub fn next_number(&self, level: Level) -> (n: usize)
        ensures
            n == self@.counter(level),
    {
        match level {
            Level::L0 => self.next_l0,
            Level::L1 => self.next_l1,
            Level::L2 => self.next_l2,
        }
    }

    /// A bundle with identity `id` for `level` that is not visible yet. Its
    /// files are numbered by the counter of the level, which then grows by
    /// one: no number is given twice, and no name of the new bundle is the
    /// name of a file of a listed bundle.
    pub fn new_file_bundle_with_id(&mut self, level: Level, id: FileBundleId) -> (r:
        UncommittedFileBundle)
        requires
            old(self)@.counter(level) < usize::MAX,
        ensures
            r@ == old(self)@.next_bundle(level, id.0),
            final(self)@ == old(self)@.named(level),
            old(self)@.wf() ==> final(self)@.wf() && old(self)@.fresh(r@) && final(self)@.accepts(
                r@,
            ),
    {
        let seq = self.next_number(level);
        proof {
            if self@.wf() {
                lemma_fresh_names(self@, level, id.0);
            }
        }
        match level {
            Level::L0 => {
                self.next_l0 = seq + 1;
            },
            Level::L1 => {
                self.next_l1 = seq + 1;
            },
            Level::L2 => {
                self.next_l2 = seq + 1;
            },
        }
        UncommittedFileBundle(
            FileBundle {
                id,
                main_data_file_path: file_name(level, FileKind::Data, seq),
                index_file_path: file_name(level, FileKind::Index, seq),
                bloom_filter_file_path: file_name(level, FileKind::Bloom, seq),
                level,
                number: seq,
            },
        )
    }

    /// A bundle with a fresh random identity for `level` that is not
    /// visible yet, named as `new_file_bundle_with_id` names it.
    pub fn new_file_bundle(&mut self, level: Level) -> (r: UncommittedFileBundle)
        requires
            old(self)@.counter(level) < usize::MAX,
        ensures
            r@ == old(self)@.next_bundle(level, r@.id),
            r@.id & 0x0000_0000_0000_f000_c000_0000_0000_0000
                == 0x0000_0000_0000_4000_8000_0000_0000_0000,
            final(self)@ == old(self)@.named(level),
            old(self)@.wf() ==> final(self)@.wf() && old(self)@.fresh(r@) && final(self)@.accepts(
                r@,
            ),
    {
        self.new_file_bundle_with_id(level, FileBundleId::new())
    }

    /// Makes a bundle visible: it goes in front of its level. The answer is
    /// `Yes` where the level now holds as many bundles as its threshold.
    pub fn commit_file_bundle(&mut self, uncommitted_bundle: UncommittedFileBundle) -> (r:
        ShouldCompact)
        ensures
            final(self)@ == old(self)@.commit(uncommitted_bundle@),
            r == RegistryView::crossed(
                uncommitted_bundle@.level,
                final(self)@.level(uncommitted_bundle@.level).len(),
            ),
            old(self)@.wf() && old(self)@.accepts(uncommitted_bundle@) ==> final(self)@.wf(),
    {
        proof {
            lemma_commit_keeps_wf(self@, uncommitted_bundle@);
        }
        let ghost before = self@;
        let ghost bundle = uncommitted_bundle@;
        let level = uncommitted_bundle.0.level;
        let should_compact = match level {
            Level::L0 => {
                self.l0.push_front(uncommitted_bundle.into_inner());
                assert(self@.l0 =~= seq![bundle] + before.l0);
                self.l0.len() >= L0_COMPACTION_THRESHOLD
            },
            Level::L1 => {
                self.l1.push_front(uncommitted_bundle.into_inner());
                assert(self@.l1 =~= seq![bundle] + before.l1);
                self.l1.len() >= L1_COMPACTION_THRESHOLD
            },
            Level::L2 => {
                self.l2.push_front(uncommitted_bundle.into_inner());
                assert(self@.l2 =~= seq![bundle] + before.l2);
                false
            },
        };
        if should_compact {
            ShouldCompact::Yes
        } else {
            ShouldCompact::No
        }
    }

    /// Takes the bundles whose identity is in `bundles_to_remove` out of
    /// their levels and hands them back, in the order in which they were
    /// visible. Their files are then to be deleted.
    pub fn remove_bundles(&mut self, bundles_to_remove: &HashSet<u128>) -> (removed: Vec<
        FileBundle,
    >)
        ensures
            final(self)@ == old(self)@.without(bundles_to_remove@),
            views_of(removed@) == old(self)@.chosen(bundles_to_remove@),
            old(self)@.wf() ==> final(self)@.wf() && all_apart(
                views_of(removed@),
                final(self)@.visible(),
            ),
    {
        proof {
            lemma_without_keeps_wf(self@, bundles_to_remove@);
            if self@.wf() {
                let gone = self@.chosen(bundles_to_remove@);
                let kept = self@.without(bundles_to_remove@).visible();
                assert forall|i: int, j: int| 0 <= i < gone.len() && 0 <= j < kept.len() implies names_apart(
                    #[trigger] gone[i],
                    #[trigger] kept[j],
                ) by {
                    lemma_removed_names_apart(self@, bundles_to_remove@, i, j);
                }
            }
        }
        let mut removed: Vec<FileBundle> = Vec::new();
        assert(views_of(removed@) =~= Seq::<BundleView>::empty());
        split_level(&mut self.l0, bundles_to_remove, &mut removed);
        split_level(&mut self.l1, bundles_to_remove, &mut removed);
        split_level(&mut self.l2, bundles_to_remove, &mut removed);
        assert(views_of(removed@) =~= old(self)@.chosen(bundles_to_remove@));
        removed
    }
}

/// The registry as its users hold it.
#[derive(Debug)]
pub struct FileBundles(FileBundlesLevelled);

impl View for FileBundles {
    type V = RegistryView;

    closed spec fn view(&self) -> RegistryView {
        self.0@
    }
}

impl FileBundles {
    /// An empty registry over the directory `base_path`.
    pub fn new(base_path: String) -> (r: Self)
        ensures
            r@ == (RegistryView {
                base_path: base_path@,
                l0: Seq::empty(),
                l1: Seq::empty(),
                l2: Seq::empty(),
                next_l0: 0,
                next_l1: 0,
                next_l2: 0,
            }),
            r@.wf(),
    {
        FileBundles(FileBundlesLevelled::new(base_path))
    }

    /// The levels of the registry.
    pub fn inner(&self) -> (levels: &FileBundlesLevelled)
        ensures
            levels@ == self@,
    {
        &self.0
    }

    /// A bundle with a fresh random identity for `level` that is not
    /// visible yet. Its files are numbered by the counter of the level,
    /// which then grows by one.
    pub fn new_file_bundle(&mut self, level: Level) -> (r: UncommittedFileBundle)
        requires
            old(self)@.counter(level) < usize::MAX,
        ensures
            r@ == old(self)@.next_bundle(level, r@.id),
            r@.id & 0x0000_0000_0000_f000_c000_0000_0000_0000
                == 0x0000_0000_0000_4000_8000_0000_0000_0000,
            final(self)@ == old(self)@.named(level),
            old(self)@.wf() ==> final(self)@.wf() && old(self)@.fresh(r@) && final(self)@.accepts(
                r@,
            ),
    {
        self.0.new_file_bundle(level)
    }

    /// Makes a bundle visible, in front of its level, and says whether the
    /// level has reached its threshold.
    pub fn commit_file_bundle(&mut self, uncommitted_bundle: UncommittedFileBundle) -> (r:
        ShouldCompact)
        ensures
            final(self)@ == old(self)@.commit(uncommitted_bundle@),
            r == RegistryView::crossed(
                uncommitted_bundle@.level,
                final(self)@.level(uncommitted_bundle@.level).len(),
            ),
            old(self)@.wf() && old(self)@.accepts(uncommitted_bundle@) ==> final(self)@.wf(),
    {
        self.0.commit_file_bundle(uncommitted_bundle)
    }

    /// Takes the bundles whose identity is in `bundles_to_remove` out of
    /// the registry and hands them back.
    pub fn remove_bundles(&mut self, bundles_to_remove: &HashSet<u128>) -> (removed: Vec<
        FileBundle,
    >)
        ensures
            final(self)@ == old(self)@.without(bundles_to_remove@),
            views_of(removed@) == old(self)@.chosen(bundles_to_remove@),
            old(self)@.wf() ==> final(self)@.wf() && all_apart(
                views_of(removed@),
                final(self)@.visible(),
            ),
    {
        self.0.remove_bundles(bundles_to_remove)
    }
}

/// A number of one digit is written with one character, a larger one with
/// more.
pub proof fn lemma_decimal_len(n: nat)
    ensures
        spec_decimal(n).len() >= 1,
        n >= 10 ==> spec_decimal(n).len() >= 2,
    decreases n,
{
    if n >= 10 {
        lemma_decimal_len(n / 10);
    }
}

/// Different numbers are written differently.
pub proof fn lemma_decimal_injective(a: nat, b: nat)
    requires
        spec_decimal(a) == spec_decimal(b),
    ensures
        a == b,
    decreases a,
{
    lemma_decimal_len(a);
    lemma_decimal_len(b);
    if a >= 10 {
        let x = spec_decimal(a / 10);
        let y = spec_decimal(b / 10);
        assert(x.push(spec_digit(a % 10)).drop_last() =~= x);
        assert(y.push(spec_digit(b % 10)).drop_last() =~= y);
        assert(x.push(spec_digit(a % 10)).last() == spec_digit(a % 10));
        assert(y.push(spec_digit(b % 10)).last() == spec_digit(b % 10));
        lemma_decimal_injective(a / 10, b / 10);
    } else {
        assert(spec_decimal(a)[0] == spec_digit(a));
        assert(spec_decimal(b)[0] == spec_digit(b));
    }
}

/// A file name tells its level, its kind and its number: files that differ
/// in one of them have different names.
pub proof fn lemma_file_name_injective(
    level: Level,
    kind: FileKind,
    n: nat,
    other_level: Level,
    other_kind: FileKind,
    m: nat,
)
    requires
        spec_file_name(level, kind, n) == spec_file_name(other_level, other_kind, m),
    ensures
        level == other_level,
        kind == other_kind,
        n == m,
{
    let a = spec_file_name(level, kind, n);
    let b = spec_file_name(other_level, other_kind, m);
    let tail = seq!['.', 'd', 'b'];
    let head = level.spec_name() + seq!['-'] + kind.spec_name() + seq!['-'];
    let other_head = other_level.spec_name() + seq!['-'] + other_kind.spec_name() + seq!['-'];
    assert(a =~= head + spec_decimal(n) + tail);
    assert(b =~= other_head + spec_decimal(m) + tail);
    // The second character is the digit of the level.
    assert(a[1] == level.spec_name()[1]);
    assert(b[1] == other_level.spec_name()[1]);
    // The fourth character is the first letter of the kind.
    assert(a[3] == kind.spec_name()[0]);
    assert(b[3] == other_kind.spec_name()[0]);
    assert(head == other_head);
    // Between the same head and the same tail stands the number.
    let from = head.len() as int;
    assert(spec_decimal(n).len() == spec_decimal(m).len()) by {
        assert(a.len() == head.len() + spec_decimal(n).len() + 3);
        assert(b.len() == head.len() + spec_decimal(m).len() + 3);
    }
    assert(a.subrange(from, from + spec_decimal(n).len()) =~= spec_decimal(n));
    assert(b.subrange(from, from + spec_decimal(m).len()) =~= spec_decimal(m));
    lemma_decimal_injective(n, m);
}

/// The names that the registry gives to the next bundle of a level are
/// three names, and none of them is the name of a file of a listed bundle:
/// every listed number of the level is below the counter.
pub proof fn lemma_fresh_names(registry: RegistryView, level: Level, id: u128)
    requires
        registry.wf(),
    ensures
        registry.fresh(registry.next_bundle(level, id)),
        registry.named(level).wf(),
        registry.next_bundle(level, id).named(),
        registry.named(level).accepts(registry.next_bundle(level, id)),
{
    let bundle = registry.next_bundle(level, id);
    let n = registry.counter(level);
    if bundle.data == bundle.index {
        lemma_file_name_injective(level, FileKind::Data, n, level, FileKind::Index, n);
    }
    if bundle.data == bundle.bloom {
        lemma_file_name_injective(level, FileKind::Data, n, level, FileKind::Bloom, n);
    }
    if bundle.index == bundle.bloom {
        lemma_file_name_injective(level, FileKind::Index, n, level, FileKind::Bloom, n);
    }
    assert forall|i: int| 0 <= i < registry.visible().len() implies names_apart(
        bundle,
        #[trigger] registry.visible()[i],
    ) by {
        let other = registry.visible()[i];
        // The bundle is listed in its own level, under a number below the
        // counter of that level.
        if i < registry.l0.len() {
            assert(other == registry.l0[i]);
        } else if i < registry.l0.len() + registry.l1.len() {
            assert(other == registry.l1[i - registry.l0.len()]);
        } else {
            assert(other == registry.l2[i - registry.l0.len() - registry.l1.len()]);
        }
        assert(other.named() && other.number < registry.counter(other.level));
        lemma_named_apart(bundle, other);
    }
}

/// Two bundles that carry the names of their numbers share no file name,
/// unless they have the same level and number.
pub proof fn lemma_named_apart(a: BundleView, b: BundleView)
    requires
        a.named(),
        b.named(),
        a.level != b.level || a.number != b.number,
    ensures
        names_apart(a, b),
{
    if a.data == b.data {
        lemma_file_name_injective(a.level, FileKind::Data, a.number, b.level, FileKind::Data, b.number);
    }
    if a.data == b.index {
        lemma_file_name_injective(a.level, FileKind::Data, a.number, b.level, FileKind::Index, b.number);
    }
    if a.data == b.bloom {
        lemma_file_name_injective(a.level, FileKind::Data, a.number, b.level, FileKind::Bloom, b.number);
    }
    if a.index == b.data {
        lemma_file_name_injective(a.level, FileKind::Index, a.number, b.level, FileKind::Data, b.number);
    }
    if a.index == b.index {
        lemma_file_name_injective(a.level, FileKind::Index, a.number, b.level, FileKind::Index, b.number);
    }
    if a.index == b.bloom {
        lemma_file_name_injective(a.level, FileKind::Index, a.number, b.level, FileKind::Bloom, b.number);
    }
    if a.bloom == b.data {
        lemma_file_name_injective(a.level, FileKind::Bloom, a.number, b.level, FileKind::Data, b.number);
    }
    if a.bloom == b.index {
        lemma_file_name_injective(a.level, FileKind::Bloom, a.number, b.level, FileKind::Index, b.number);
    }
    if a.bloom == b.bloom {
        lemma_file_name_injective(a.level, FileKind::Bloom, a.number, b.level, FileKind::Bloom, b.number);
    }
}

/// Committing a bundle that carries the names of a number below the
/// counter of its level keeps the registry in order.
pub proof fn lemma_commit_keeps_wf(registry: RegistryView, bundle: BundleView)
    ensures
        registry.wf() && registry.accepts(bundle) ==> registry.commit(bundle).wf(),
{
    if registry.wf() && registry.accepts(bundle) {
        let before = registry.level(bundle.level);
        let after = seq![bundle] + before;
        assert forall|i: int| 0 <= i < after.len() implies (#[trigger] after[i]).level
            == bundle.level && after[i].named() && after[i].number < registry.counter(
            bundle.level,
        ) by {
            if i > 0 {
                assert(after[i] == before[i - 1]);
            }
        }
        assert(numbers_differ(before));
        assert forall|i: int, j: int| 0 <= i < j < after.len() implies (#[trigger] after[i]).number
            != (#[trigger] after[j]).number by {
            assert(after[j] == before[j - 1]);
            if i > 0 {
                assert(after[i] == before[i - 1]);
            }
        }
    }
}

/// The bundles that stay when bundles are removed by identity stay in their
/// order: where all numbers differed, they still do.
pub proof fn lemma_select_numbers_differ(bundles: Seq<BundleView>, ids: Set<u128>, listed: bool)
    requires
        numbers_differ(bundles),
    ensures
        numbers_differ(spec_select(bundles, ids, listed)),
    decreases bundles.len(),
{
    if bundles.len() > 0 {
        let head = bundles.drop_last();
        assert forall|i: int, j: int| 0 <= i < j < head.len() implies (#[trigger] head[i]).number
            != (#[trigger] head[j]).number by {
            assert(head[i] == bundles[i] && head[j] == bundles[j]);
        }
        lemma_select_numbers_differ(head, ids, listed);
        let before = spec_select(head, ids, listed);
        let after = spec_select(bundles, ids, listed);
        assert forall|i: int, j: int| 0 <= i < j < after.len() implies (#[trigger] after[i]).number
            != (#[trigger] after[j]).number by {
            if j == before.len() {
                // The last one was kept: the earlier ones stand before it.
                lemma_select_from(head, ids, listed, i);
                let k = choose|k: int| 0 <= k < head.len() && head[k] == before[i];
                assert(bundles[k] == after[i]);
                assert(bundles[bundles.len() - 1] == after[j]);
            } else {
                assert(after[i] == before[i] && after[j] == before[j]);
            }
        }
    }
}

/// Every bundle that stays when bundles are removed by identity was there
/// before.
pub proof fn lemma_select_from(bundles: Seq<BundleView>, ids: Set<u128>, listed: bool, i: int)
    requires
        0 <= i < spec_select(bundles, ids, listed).len(),
    ensures
        bundles.contains(spec_select(bundles, ids, listed)[i]),
        ids.contains(spec_select(bundles, ids, listed)[i].id) == listed,
    decreases bundles.len(),
{
    if bundles.len() > 0 {
        let before = spec_select(bundles.drop_last(), ids, listed);
        if i < before.len() {
            lemma_select_from(bundles.drop_last(), ids, listed, i);
            let j = choose|j: int|
                0 <= j < bundles.drop_last().len() && bundles.drop_last()[j] == before[i];
            assert(bundles[j] == before[i]);
        } else {
            assert(bundles[bundles.len() - 1] == bundles.last());
        }
    }
}

/// Removing bundles by identity keeps the registry in order.
pub proof fn lemma_without_keeps_wf(registry: RegistryView, ids: Set<u128>)
    ensures
        registry.wf() ==> registry.without(ids).wf(),
{
    if registry.wf() {
        let after = registry.without(ids);
        assert forall|i: int| 0 <= i < after.l0.len() implies (#[trigger] after.l0[i]).level
            == Level::L0 && after.l0[i].named() && after.l0[i].number < after.next_l0 by {
            lemma_select_from(registry.l0, ids, false, i);
        }
        assert forall|i: int| 0 <= i < after.l1.len() implies (#[trigger] after.l1[i]).level
            == Level::L1 && after.l1[i].named() && after.l1[i].number < after.next_l1 by {
            lemma_select_from(registry.l1, ids, false, i);
        }
        assert forall|i: int| 0 <= i < after.l2.len() implies (#[trigger] after.l2[i]).level
            == Level::L2 && after.l2[i].named() && after.l2[i].number < after.next_l2 by {
            lemma_select_from(registry.l2, ids, false, i);
        }
        lemma_select_numbers_differ(registry.l0, ids, false);
        lemma_select_numbers_differ(registry.l1, ids, false);
        lemma_select_numbers_differ(registry.l2, ids, false);
    }
}

/// No file of a bundle that is removed has the name of a file of a bundle
/// that stays listed: deleting the files of what `remove_bundles` hands
/// back takes no file of a listed bundle.
pub proof fn lemma_removed_names_apart(registry: RegistryView, ids: Set<u128>, i: int, j: int)
    requires
        registry.wf(),
        0 <= i < registry.chosen(ids).len(),
        0 <= j < registry.without(ids).visible().len(),
    ensures
        names_apart(registry.chosen(ids)[i], registry.without(ids).visible()[j]),
{
    let gone = registry.chosen(ids)[i];
    let kept = registry.without(ids).visible()[j];
    lemma_chosen_listed(registry, ids, true, i);
    lemma_chosen_listed(registry, ids, false, j);
    assert(registry.without(ids).visible() =~= spec_select(registry.l0, ids, false) + spec_select(
        registry.l1,
        ids,
        false,
    ) + spec_select(registry.l2, ids, false));
    // Both were listed; the one has its identity in `ids`, the other not.
    assert(gone.id != kept.id);
    if gone.level == kept.level && gone.number == kept.number {
        let level = registry.level(gone.level);
        let a = choose|a: int| 0 <= a < level.len() && level[a] == gone;
        let b = choose|b: int| 0 <= b < level.len() && level[b] == kept;
        if a < b {
            assert(level[a].number != level[b].number);
        } else if b < a {
            assert(level[b].number != level[a].number);
        }
    }
    lemma_named_apart(gone, kept);
}

/// A bundle that is taken, or kept, by identity was listed in its own
/// level, under the names of its number.
proof fn lemma_chosen_listed(registry: RegistryView, ids: Set<u128>, listed: bool, i: int)
    requires
        registry.wf(),
        0 <= i < (spec_select(registry.l0, ids, listed) + spec_select(registry.l1, ids, listed)
            + spec_select(registry.l2, ids, listed)).len(),
    ensures
        ({
            let b = (spec_select(registry.l0, ids, listed) + spec_select(
                registry.l1,
                ids,
                listed,
            ) + spec_select(registry.l2, ids, listed))[i];
            &&& b.named()
            &&& registry.level(b.level).contains(b)
            &&& ids.contains(b.id) == listed
        }),
{
    let s0 = spec_select(registry.l0, ids, listed);
    let s1 = spec_select(registry.l1, ids, listed);
    let s2 = spec_select(registry.l2, ids, listed);
    if i < s0.len() {
        lemma_select_from(registry.l0, ids, listed, i);
        let k = choose|k: int| 0 <= k < registry.l0.len() && registry.l0[k] == s0[i];
        assert(registry.l0[k].level == Level::L0);
    } else if i < s0.len() + s1.len() {
        lemma_select_from(registry.l1, ids, listed, i - s0.len());
        let k = choose|k: int| 0 <= k < registry.l1.len() && registry.l1[k] == s1[i - s0.len()];
        assert(registry.l1[k].level == Level::L1);
    } else {
        lemma_select_from(registry.l2, ids, listed, i - s0.len() - s1.len());
        let k = choose|k: int|
            0 <= k < registry.l2.len() && registry.l2[k] == s2[i - s0.len() - s1.len()];
        assert(registry.l2[k].level == Level::L2);
    }
}

/// The counters only grow: naming a bundle raises the counter of its level
/// by one, and neither a commit nor a removal changes a counter. So a
/// bundle that was named earlier, committed or not, carries a number below
/// the counter, and by `lemma_named_apart` no later bundle shares a name
/// with it.
pub proof fn lemma_counters_only_grow(
    registry: RegistryView,
    level: Level,
    named: Level,
    bundle: BundleView,
    ids: Set<u128>,
)
    ensures
        registry.named(named).counter(level) == registry.counter(level) + if level == named {
            1nat
        } else {
            0nat
        },
        registry.commit(bundle).counter(level) == registry.counter(level),
        registry.without(ids).counter(level) == registry.counter(level),
{
}

} // verus!
