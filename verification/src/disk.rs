//! What the steps in the making of a file do to a disk, by the path rules of Unix.
use crate::file_util::{temp_file_steps, testdata, Step};
use vstd::prelude::*;

verus! {

/// A text that stands for one name in a path.
pub open spec fn one_name(text: Seq<char>) -> bool {
    &&& text.len() > 0
    &&& !text.contains('/')
    &&& !text.contains('\0')
    &&& text != "."@
    &&& text != ".."@
}

/// The pieces between the slashes of a path.
pub open spec fn pieces(text: Seq<char>) -> Seq<Seq<char>>
    decreases text.len(),
{
    if text.len() == 0 {
        seq![Seq::empty()]
    } else {
        let before = pieces(text.drop_last());
        if text.last() == '/' {
            before.push(Seq::empty())
        } else {
            before.drop_last().push(before.last().push(text.last()))
        }
    }
}

/// A path that starts at the root.
pub open spec fn is_absolute(text: Seq<char>) -> bool {
    text.len() > 0 && text[0] == '/'
}

/// A file that is open.
pub struct Handle {
    pub file: Seq<Seq<char>>,
    /// Whether it can be read.
    pub reads: bool,
    /// Whether it can be written.
    pub writes: bool,
    /// Where the next byte is read or written.
    pub position: nat,
    /// Whether what is written goes to the end, whatever the position.
    pub appends: bool,
}

/// What `bytes` become where `content` is written over them from `at` on. What lies between their
/// end and `at` is filled with zeros.
pub open spec fn overwritten(bytes: Seq<u8>, at: nat, content: Seq<u8>) -> Seq<u8> {
    let end = at + content.len();
    Seq::new(
        if content.len() > 0 && bytes.len() < end {
            end
        } else {
            bytes.len()
        },
        |i: int|
            if at <= i < end {
                content[i - at]
            } else if i < bytes.len() {
                bytes[i]
            } else {
                0
            },
    )
}

/// A disk. Directories and files are known by the names that lead to them from the root.
///
/// There are no links on it. That a step may fail for want of rights or of space, or over a name
/// that is too long, is left aside.
pub struct Disk {
    /// The current directory.
    pub current: Seq<Seq<char>>,
    /// The directories.
    pub dirs: Set<Seq<Seq<char>>>,
    /// The files, with what a reader finds in them.
    pub files: Map<Seq<Seq<char>>, Seq<u8>>,
    /// The files as they would outlast a power failure.
    pub durable: Map<Seq<Seq<char>>, Seq<u8>>,
    /// The file that was made or opened last. It is what is written, waited for and handed out.
    pub opened: Option<Handle>,
}

impl Disk {
    /// The directory to which a piece of a path leads from the directory `at`, if it does.
    pub open spec fn enter_piece(
        self,
        at: Option<Seq<Seq<char>>>,
        piece: Seq<char>,
    ) -> Option<Seq<Seq<char>>> {
        match at {
            None => None,
            Some(dir) => if piece.len() == 0 || piece == "."@ {
                Some(dir)
            } else if piece == ".."@ {
                Some(
                    if dir.len() > 0 {
                        dir.drop_last()
                    } else {
                        dir
                    },
                )
            } else if one_name(piece) && self.dirs.contains(dir.push(piece)) {
                Some(dir.push(piece))
            } else {
                None
            },
        }
    }

    /// The directory to which pieces of a path lead from the directory `at`, if they do.
    pub open spec fn enter(
        self,
        at: Option<Seq<Seq<char>>>,
        way: Seq<Seq<char>>,
    ) -> Option<Seq<Seq<char>>>
        decreases way.len(),
    {
        if way.len() == 0 {
            at
        } else {
            self.enter_piece(self.enter(at, way.drop_last()), way.last())
        }
    }

    /// The directory to which paths lead, one taken from the other, the first of them from the
    /// current directory.
    pub open spec fn enter_all(self, path: Seq<Seq<char>>) -> Option<Seq<Seq<char>>>
        decreases path.len(), 1int,
    {
        if path.len() == 0 {
            Some(self.current)
        } else {
            self.enter(self.base(path), pieces(path.last()))
        }
    }

    /// The directory from which the last of the paths is taken.
    pub open spec fn base(self, path: Seq<Seq<char>>) -> Option<Seq<Seq<char>>>
        decreases path.len(), 0int,
    {
        if path.len() == 0 {
            Some(self.current)
        } else if is_absolute(path.last()) {
            Some(Seq::empty())
        } else {
            self.enter_all(path.drop_last())
        }
    }

    /// Where a file stands, or may be made, that goes by these paths, one taken from the other.
    pub open spec fn place(self, path: Seq<Seq<char>>) -> Option<Seq<Seq<char>>> {
        if path.len() == 0 {
            None
        } else {
            let way = pieces(path.last());
            match self.enter(self.base(path), way.drop_last()) {
                Some(dir) => if one_name(way.last()) {
                    Some(dir.push(way.last()))
                } else {
                    None
                },
                None => None,
            }
        }
    }

    /// The step can be taken.
    pub open spec fn allows(self, step: Step) -> bool {
        match step {
            Step::CreateDirAll(dir) => {
                &&& forall|i: int| 0 <= i < dir.len() ==> one_name(#[trigger] dir[i])
                &&& forall|n: int|
                    0 <= n <= dir.len() ==> !self.files.contains_key(
                        self.current + #[trigger] dir.take(n),
                    )
            },
            Step::Create(path) => self.place(path) is Some && !self.dirs.contains(
                self.place(path)->0,
            ),
            Step::WriteAll(_) => self.opened is Some && self.opened->0.writes,
            Step::SyncAll => self.opened is Some,
            Step::OpenReadWrite(path) => self.place(path) is Some && self.files.contains_key(
                self.place(path)->0,
            ),
        }
    }

    /// The disk once the step is taken.
    pub open spec fn after(self, step: Step) -> Disk {
        match step {
            Step::CreateDirAll(dir) => Disk {
                dirs: self.dirs.union(
                    Set::new(
                        |path: Seq<Seq<char>>|
                            exists|n: int|
                                0 <= n <= dir.len() && path == self.current + #[trigger] dir.take(
                                    n,
                                ),
                    ),
                ),
                ..self
            },
            Step::Create(path) => Disk {
                files: self.files.insert(self.place(path)->0, Seq::empty()),
                opened: Some(
                    Handle {
                        file: self.place(path)->0,
                        reads: false,
                        writes: true,
                        position: 0,
                        appends: false,
                    },
                ),
                ..self
            },
            Step::WriteAll(content) => {
                let handle = self.opened->0;
                let bytes = self.files[handle.file];
                let at = if handle.appends {
                    bytes.len()
                } else {
                    handle.position
                };
                Disk {
                    files: self.files.insert(handle.file, overwritten(bytes, at, content)),
                    opened: Some(Handle { position: at + content.len(), ..handle }),
                    ..self
                }
            },
            Step::SyncAll => Disk {
                durable: self.durable.insert(
                    self.opened->0.file,
                    self.files[self.opened->0.file],
                ),
                ..self
            },
            Step::OpenReadWrite(path) => Disk {
                opened: Some(
                    Handle {
                        file: self.place(path)->0,
                        reads: true,
                        writes: true,
                        position: 0,
                        appends: false,
                    },
                ),
                ..self
            },
        }
    }

    /// The disk once the steps are taken up to the first that cannot be, and whether all were.
    pub open spec fn run(self, steps: Seq<Step>) -> (Disk, bool)
        decreases steps.len(),
    {
        if steps.len() == 0 {
            (self, true)
        } else if self.allows(steps.first()) {
            self.after(steps.first()).run(steps.drop_first())
        } else {
            (self, false)
        }
    }

    /// What is read to the end through the file that was made or opened last.
    pub open spec fn read_through(self) -> Seq<u8> {
        self.files[self.opened->0.file].skip(self.opened->0.position as int)
    }

    /// The disk once the directory for test data is there.
    pub open spec fn with_testdata(self) -> Disk {
        self.after(Step::CreateDirAll(testdata()))
    }

    /// The directory for test data.
    pub open spec fn testdata_dir(self) -> Seq<Seq<char>> {
        self.current + testdata()
    }
}

/// Where the directory for test data can be made and the name leads to a place for a file, every
/// step in the making of the file can be taken. In the end that file is open at its start, for
/// reading and for writing that does not append. It has the given content and nothing else, and
/// is safely on disk. Every other file is as it was, and no directory is new but the one for test
/// data and those that lead to it.
pub proof fn law_temp_file_has_the_content(disk: Disk, file_name: Seq<char>, content: Seq<u8>)
    requires
        disk.allows(Step::CreateDirAll(testdata())),
        disk.with_testdata().allows(Step::Create(testdata().push(file_name))),
    ensures
        ({
            let place = disk.with_testdata().place(testdata().push(file_name))->0;
            let (end, done) = disk.run(temp_file_steps(file_name, content));
            &&& done
            &&& end.opened == Some(
                Handle { file: place, reads: true, writes: true, position: 0, appends: false },
            )
            &&& end.read_through() == content
            &&& end.files == disk.files.insert(place, content)
            &&& end.durable == disk.durable.insert(place, content)
            &&& end.dirs == disk.with_testdata().dirs
        }),
{
    let path = testdata().push(file_name);
    let steps = temp_file_steps(file_name, content);
    let d1 = disk.with_testdata();
    let d2 = d1.after(steps[1]);
    let d3 = d2.after(steps[2]);
    let d4 = d3.after(steps[3]);
    let d5 = d4.after(steps[4]);
    lemma_same_place(d1, d4, path);
    assert(overwritten(Seq::empty(), 0, content) =~= content);
    assert(content.skip(0) =~= content);
    lemma_run(disk, steps);
    lemma_run(d1, steps.skip(1));
    lemma_run(d2, steps.skip(2));
    lemma_run(d3, steps.skip(3));
    lemma_run(d4, steps.skip(4));
    assert(steps.skip(1).skip(1) =~= steps.skip(2));
    assert(steps.skip(2).skip(1) =~= steps.skip(3));
    assert(steps.skip(3).skip(1) =~= steps.skip(4));
    assert(steps.skip(4).skip(1) =~= Seq::<Step>::empty());
    assert(disk.run(steps) == (d5, true));
    assert(d5.files =~= disk.files.insert(d1.place(path)->0, content));
    assert(d5.durable =~= disk.durable.insert(d1.place(path)->0, content));
}

/// One step of a run.
proof fn lemma_run(disk: Disk, steps: Seq<Step>)
    requires
        steps.len() > 0,
    ensures
        disk.allows(steps[0]) ==> disk.run(steps) == disk.after(steps[0]).run(steps.skip(1)),
        !disk.allows(steps[0]) ==> disk.run(steps) == (disk, false),
{
    assert(steps.drop_first() =~= steps.skip(1));
}

/// Where the name leads to no place for a file, nothing is stored: the run ends once the directory
/// for test data is there, and no other directory is made.
pub proof fn law_refused_name_stores_nothing(disk: Disk, file_name: Seq<char>, content: Seq<u8>)
    requires
        disk.allows(Step::CreateDirAll(testdata())),
        !disk.with_testdata().allows(Step::Create(testdata().push(file_name))),
    ensures
        disk.run(temp_file_steps(file_name, content)) == (disk.with_testdata(), false),
        disk.with_testdata().files == disk.files,
        disk.with_testdata().durable == disk.durable,
{
    let steps = temp_file_steps(file_name, content);
    lemma_run(disk, steps);
    lemma_run(disk.with_testdata(), steps.skip(1));
}

/// A name that is one name leads to the file of that name in the directory for test data.
pub proof fn law_one_name_is_in_the_directory(disk: Disk, file_name: Seq<char>)
    requires
        one_name(file_name),
    ensures
        disk.with_testdata().place(testdata().push(file_name)) == Some(
            disk.testdata_dir().push(file_name),
        ),
{
    let path = testdata().push(file_name);
    let made = disk.with_testdata();
    lemma_testdata_is_entered(disk);
    assert(path.drop_last() =~= testdata());
    lemma_one_piece(file_name);
    let way = pieces(file_name);
    assert(!is_absolute(file_name)) by {
        if is_absolute(file_name) {
            assert(file_name.contains(file_name[0]));
        }
    }
    assert(way.drop_last() =~= Seq::<Seq<char>>::empty());
}

/// A name that leads through a directory that is there leads to the file in that directory.
pub proof fn law_name_leads_through_a_directory(disk: Disk, dir: Seq<char>, name: Seq<char>)
    requires
        one_name(dir),
        one_name(name),
        disk.dirs.contains(disk.testdata_dir().push(dir)),
    ensures
        disk.with_testdata().place(testdata().push(dir + seq!['/'] + name)) == Some(
            disk.testdata_dir().push(dir).push(name),
        ),
{
    let file_name = dir + seq!['/'] + name;
    let path = testdata().push(file_name);
    let made = disk.with_testdata();
    lemma_testdata_is_entered(disk);
    assert(path.drop_last() =~= testdata());
    assert(!is_absolute(file_name)) by {
        assert(dir.contains(dir[0]));
    }
    lemma_two_pieces(dir, name);
    let way = pieces(file_name).drop_last();
    assert(way =~= seq![dir]);
    assert(way.drop_last() =~= Seq::<Seq<char>>::empty());
    assert(made.enter(made.base(path), way.drop_last()) == Some(disk.testdata_dir()));
}

/// A directory that a name leads through is not made: where it is missing, the name is refused.
pub proof fn law_missing_directory_is_refused(
    disk: Disk,
    dir: Seq<char>,
    rest: Seq<char>,
    content: Seq<u8>,
)
    requires
        disk.allows(Step::CreateDirAll(testdata())),
        one_name(dir),
        !disk.dirs.contains(disk.testdata_dir().push(dir)),
    ensures
        disk.run(temp_file_steps(dir + seq!['/'] + rest, content)) == (
            disk.with_testdata(),
            false,
        ),
        !disk.with_testdata().dirs.contains(disk.testdata_dir().push(dir)),
        disk.with_testdata().files == disk.files,
        disk.with_testdata().durable == disk.durable,
{
    let file_name = dir + seq!['/'] + rest;
    let path = testdata().push(file_name);
    let made = disk.with_testdata();
    let missing = disk.testdata_dir().push(dir);
    assert(!made.dirs.contains(missing)) by {
        assert(missing.len() == disk.current.len() + testdata().len() + 1);
    }
    lemma_testdata_is_entered(disk);
    assert(path.drop_last() =~= testdata());
    assert(!is_absolute(file_name)) by {
        assert(dir.contains(dir[0]));
    }
    lemma_first_piece(dir, rest);
    let way = pieces(file_name).drop_last();
    assert(way[0] == dir);
    lemma_stuck(made, Some(disk.testdata_dir()), way);
    law_refused_name_stores_nothing(disk, file_name, content);
}

/// Where a path leads depends on the current directory and on the directories alone.
proof fn lemma_same_place(a: Disk, b: Disk, path: Seq<Seq<char>>)
    requires
        a.current == b.current,
        a.dirs == b.dirs,
    ensures
        a.place(path) == b.place(path),
{
    if path.len() > 0 {
        lemma_same_base(a, b, path);
        lemma_same_way(a, b, a.base(path), pieces(path.last()).drop_last());
    }
}

proof fn lemma_same_base(a: Disk, b: Disk, path: Seq<Seq<char>>)
    requires
        a.current == b.current,
        a.dirs == b.dirs,
        path.len() > 0,
    ensures
        a.base(path) == b.base(path),
    decreases path.len(),
{
    let before = path.drop_last();
    if !is_absolute(path.last()) && before.len() > 0 {
        lemma_same_base(a, b, before);
        lemma_same_way(a, b, a.base(before), pieces(before.last()));
    }
}

proof fn lemma_same_way(a: Disk, b: Disk, at: Option<Seq<Seq<char>>>, way: Seq<Seq<char>>)
    requires
        a.dirs == b.dirs,
    ensures
        a.enter(at, way) == b.enter(at, way),
    decreases way.len(),
{
    if way.len() > 0 {
        lemma_same_way(a, b, at, way.drop_last());
    }
}

/// A text without a slash is one piece.
proof fn lemma_one_piece(text: Seq<char>)
    requires
        !text.contains('/'),
    ensures
        pieces(text) == seq![text],
    decreases text.len(),
{
    if text.len() > 0 {
        let before = text.drop_last();
        assert(text.contains(text.last()));
        assert forall|i: int| 0 <= i < before.len() implies before[i] != '/' by {
            assert(text.contains(text[i]));
        }
        lemma_one_piece(before);
        assert(before.push(text.last()) =~= text);
        assert(pieces(text) =~= seq![text]);
    } else {
        assert(text =~= Seq::<char>::empty());
    }
}

/// What stands before the first slash is the first piece, and not the last.
proof fn lemma_first_piece(first: Seq<char>, rest: Seq<char>)
    requires
        !first.contains('/'),
    ensures
        pieces(first + seq!['/'] + rest).len() >= 2,
        pieces(first + seq!['/'] + rest)[0] == first,
    decreases rest.len(),
{
    let text = first + seq!['/'] + rest;
    if rest.len() == 0 {
        lemma_one_piece(first);
        assert(text.drop_last() =~= first);
        assert(text.last() == '/');
    } else {
        lemma_first_piece(first, rest.drop_last());
        assert(text.drop_last() =~= first + seq!['/'] + rest.drop_last());
    }
}

/// One slash parts a text in two pieces.
proof fn lemma_two_pieces(first: Seq<char>, last: Seq<char>)
    requires
        !first.contains('/'),
        !last.contains('/'),
    ensures
        pieces(first + seq!['/'] + last) == seq![first, last],
    decreases last.len(),
{
    let text = first + seq!['/'] + last;
    if last.len() == 0 {
        lemma_one_piece(first);
        assert(text.drop_last() =~= first);
        assert(last =~= Seq::<char>::empty());
        assert(pieces(text) =~= seq![first, last]);
    } else {
        let before = last.drop_last();
        assert(last.contains(last.last()));
        assert forall|i: int| 0 <= i < before.len() implies before[i] != '/' by {
            assert(last.contains(last[i]));
        }
        lemma_two_pieces(first, before);
        assert(text.drop_last() =~= first + seq!['/'] + before);
        assert(before.push(last.last()) =~= last);
        assert(pieces(text) =~= seq![first, last]);
    }
}

/// A way whose first piece leads nowhere leads nowhere.
proof fn lemma_stuck(disk: Disk, at: Option<Seq<Seq<char>>>, way: Seq<Seq<char>>)
    requires
        way.len() > 0,
        disk.enter_piece(at, way[0]) is None,
    ensures
        disk.enter(at, way) is None,
    decreases way.len(),
{
    if way.len() == 1 {
        assert(way.drop_last() =~= Seq::<Seq<char>>::empty());
    } else {
        lemma_stuck(disk, at, way.drop_last());
    }
}

/// Single names lead from the current directory to the directory that they name, where it and
/// those on the way are there.
proof fn lemma_names_are_entered(disk: Disk, names: Seq<Seq<char>>)
    requires
        forall|i: int| 0 <= i < names.len() ==> one_name(#[trigger] names[i]),
        forall|n: int|
            0 <= n <= names.len() ==> disk.dirs.contains(disk.current + #[trigger] names.take(n)),
    ensures
        disk.enter_all(names) == Some(disk.current + names),
    decreases names.len(),
{
    if names.len() == 0 {
        assert(disk.current + names =~= disk.current);
    } else {
        let before = names.drop_last();
        let name = names.last();
        assert forall|i: int| 0 <= i < before.len() implies one_name(#[trigger] before[i]) by {
            assert(one_name(names[i]));
        }
        assert forall|n: int| 0 <= n <= before.len() implies disk.dirs.contains(
            disk.current + #[trigger] before.take(n),
        ) by {
            assert(before.take(n) =~= names.take(n));
        }
        lemma_names_are_entered(disk, before);
        assert(one_name(names[names.len() - 1]));
        lemma_one_piece(name);
        assert(!is_absolute(name)) by {
            assert(name.contains(name[0]));
        }
        assert(names.take(names.len() as int) =~= names);
        assert((disk.current + before).push(name) =~= disk.current + names);
        let way = pieces(name);
        assert(way.drop_last() =~= Seq::<Seq<char>>::empty());
        assert(disk.enter(disk.base(names), way.drop_last()) == disk.base(names));
    }
}

/// Once it is made, the directory for test data is where its names lead.
proof fn lemma_testdata_is_entered(disk: Disk)
    ensures
        disk.with_testdata().enter_all(testdata()) == Some(disk.testdata_dir()),
{
    reveal_strlit("target");
    reveal_strlit("debug");
    reveal_strlit("testdata");
    reveal_strlit(".");
    reveal_strlit("..");
    assert forall|i: int| 0 <= i < testdata().len() implies one_name(#[trigger] testdata()[i]) by {
    }
    lemma_names_are_entered(disk.with_testdata(), testdata());
}

} // verus!
