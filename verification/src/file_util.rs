//! Paths and files for test data.
use crate::text::{characters, law_decimals_differ, push_signed_decimal, signed_decimal};
use std::path::PathBuf;
use vstd::prelude::*;

verus! {

/// [`std::path::PathBuf`], a path of the file system.
#[verifier::external_type_specification]
#[verifier::external_body]
pub struct ExPathBuf(std::path::PathBuf);

/// The text that a path holds, with replacement characters for what in it is not Unicode.
pub uninterp spec fn path_text(path: &PathBuf) -> Seq<char>;

/// Calls [`std::path::Path::to_string_lossy`].
///
/// Claimed of it: the text depends on the path alone. What stands in it for a part of the path
/// that is not Unicode is left unsaid.
#[verifier::external_body]
fn to_string_lossy(path: &PathBuf) -> (text: String)
    ensures
        text@ == path_text(path),
{
    path.to_string_lossy().into_owned()
}

/// `text` with a slash in place of each backslash.
pub open spec fn slashed(text: Seq<char>) -> Seq<char> {
    text.map_values(
        |c: char|
            if c == '\\' {
                '/'
            } else {
                c
            },
    )
}

/// Puts a slash in place of each backslash.
pub fn forward_slashes(text: &str) -> (result: String)
    ensures
        result@ == slashed(text@),
{
    let chars: Vec<char> = characters(text);
    let mut result: String = String::new();
    let mut i: usize = 0;
    while i < chars.len()
        invariant
            i <= chars@.len(),
            result@ == slashed(chars@.take(i as int)),
        decreases chars@.len() - i,
    {
        let c: char = chars[i];
        result.push(
            if c == '\\' {
                '/'
            } else {
                c
            },
        );
        i = i + 1;
        assert(result@ =~= slashed(chars@.take(i as int)));
    }
    assert(chars@.take(chars@.len() as int) =~= chars@);
    result
}

/// Converts a path of the file system into a text that an object store takes as a path.
///
/// An object store knows `/` as its only separator and percent-encodes `\`, so a path that is
/// written with backslashes would become one long name.
pub fn object_store_path_str(path: &PathBuf) -> (location: String)
    ensures
        location@ == slashed(path_text(path)),
{
    forward_slashes(to_string_lossy(path).as_str())
}

/// A slash stands where a backslash stood, and every other character is as it was.
pub proof fn law_backslash_becomes_a_slash(text: Seq<char>)
    ensures
        slashed(text).len() == text.len(),
        forall|i: int|
            0 <= i < text.len() && text[i] == '\\' ==> #[trigger] slashed(text)[i] == '/',
        forall|i: int|
            0 <= i < text.len() && text[i] != '\\' ==> #[trigger] slashed(text)[i] == text[i],
{
}

/// The parts of a path are converted each by itself.
pub proof fn law_parts_are_converted_alone(a: Seq<char>, b: Seq<char>)
    ensures
        slashed(a + b) == slashed(a) + slashed(b),
{
    assert(slashed(a + b) =~= slashed(a) + slashed(b));
}

/// A path without backslashes stays as it is.
pub proof fn law_slashes_stay(text: Seq<char>)
    requires
        !text.contains('\\'),
    ensures
        slashed(text) == text,
{
    assert forall|i: int| 0 <= i < text.len() implies #[trigger] slashed(text)[i] == text[i] by {
        assert(text.contains(text[i]));
    }
    assert(slashed(text) =~= text);
}

/// No backslash is left, every other character stays in its place, and a second conversion
/// changes nothing.
pub proof fn law_no_backslash_is_left(text: Seq<char>)
    ensures
        !slashed(text).contains('\\'),
        slashed(text).len() == text.len(),
        forall|i: int|
            0 <= i < text.len() && text[i] != '\\' ==> #[trigger] slashed(text)[i] == text[i],
        slashed(slashed(text)) == slashed(text),
{
    assert(slashed(slashed(text)) =~= slashed(text));
}

/// The directory for test data, as the names that lead to it from the current directory.
pub open spec fn testdata() -> Seq<Seq<char>> {
    seq!["target"@, "debug"@, "testdata"@]
}

/// The names that lead from the current directory to the directory for test data.
fn testdata_dir() -> (dir: Vec<String>)
    ensures
        dir.deep_view() == testdata(),
{
    let mut dir: Vec<String> = Vec::new();
    dir.push("target".to_string());
    dir.push("debug".to_string());
    dir.push("testdata".to_string());
    assert(dir.deep_view() =~= testdata());
    dir
}

/// The names that lead from the current directory to a file for test data.
fn testdata_file(file_name: String) -> (path: Vec<String>)
    ensures
        path.deep_view() == testdata().push(file_name@),
{
    let mut path: Vec<String> = testdata_dir();
    path.push(file_name);
    assert(path.deep_view() =~= testdata().push(file_name@));
    path
}

/// Calls [`rand::random`] for an `i16`. Any of them can come out: nothing is claimed.
#[verifier::external_body]
pub(crate) fn random_number() -> i16 {
    rand::random::<i16>()
}

/// Where a new file may go. Both paths start from the current directory.
pub struct TempFilename {
    /// The directory to make first.
    pub dir: Vec<String>,
    /// The file in it.
    pub path: Vec<String>,
}

/// The file for test data that has the number `n` for a name.
pub fn numbered_temp_filename(n: i16) -> (file: TempFilename)
    ensures
        file.dir.deep_view() == testdata(),
        file.path.deep_view() == testdata().push(signed_decimal(n as int)),
{
    let mut file_name: String = String::new();
    push_signed_decimal(&mut file_name, n);
    assert(file_name@ =~= signed_decimal(n as int));
    TempFilename { dir: testdata_dir(), path: testdata_file(file_name) }
}

/// The file for test data that has the number which a call of `draw` gives for a name. It is
/// called once.
pub fn drawn_temp_filename<F: FnOnce() -> i16>(draw: F) -> (file: TempFilename)
    requires
        call_requires(draw, ()),
    ensures
        file.dir.deep_view() == testdata(),
        exists|n: i16| #[trigger]
            call_ensures(draw, (), n) && file.path.deep_view() == testdata().push(
                signed_decimal(n as int),
            ),
{
    let n: i16 = draw();
    numbered_temp_filename(n)
}

/// `n` can come of a call of the random number generator. No more is known of which numbers do,
/// so only a call gives one.
pub closed spec fn is_drawn(n: i16) -> bool {
    call_ensures(random_number, (), n)
}

/// What is drawn is what a call of the random number generator gives, and nothing else.
pub(crate) proof fn law_drawn_is_what_the_generator_gives(n: i16)
    ensures
        is_drawn(n) <==> call_ensures(random_number, (), n),
{
}

/// A file for test data that has a random number for a name.
pub fn get_temp_filename() -> (file: TempFilename)
    ensures
        file.dir.deep_view() == testdata(),
        exists|n: i16| #[trigger]
            is_drawn(n) && file.path.deep_view() == testdata().push(signed_decimal(n as int)),
{
    let file = drawn_temp_filename(random_number);
    proof {
        let n = choose|n: i16| #[trigger]
            call_ensures(random_number, (), n) && file.path.deep_view() == testdata().push(
                signed_decimal(n as int),
            );
        assert(is_drawn(n));
    }
    file
}

/// Files under different numbers are different files, all in the directory for test data.
pub proof fn law_different_numbers_are_different_files(a: i16, b: i16)
    requires
        a != b,
    ensures
        testdata().push(signed_decimal(a as int)) != testdata().push(signed_decimal(b as int)),
{
    let first = testdata().push(signed_decimal(a as int));
    let second = testdata().push(signed_decimal(b as int));
    if first == second {
        assert(first.last() == second.last());
        law_decimals_differ(a as int, b as int);
    }
}

/// A step in the making of a file. A path is a row of texts, each taken from where the one before
/// it leads, the first of them from the current directory.
pub enum FileStep<'a> {
    /// Make a directory, with those that lead to it.
    CreateDirAll(Vec<String>),
    /// Make a file and open it for writing, empty.
    Create(Vec<String>),
    /// Write all of this to the file that was made or opened last.
    WriteAll(&'a [u8]),
    /// Wait until the file that was made or opened last is on disk.
    SyncAll,
    /// Open a file for both reading and writing, at its start. What is in it stays, and what is
    /// written is not appended.
    OpenReadWrite(Vec<String>),
}

/// A step as its plain values.
pub enum Step {
    CreateDirAll(Seq<Seq<char>>),
    Create(Seq<Seq<char>>),
    WriteAll(Seq<u8>),
    SyncAll,
    OpenReadWrite(Seq<Seq<char>>),
}

impl<'a> View for FileStep<'a> {
    type V = Step;

    open spec fn view(&self) -> Step {
        match self {
            FileStep::CreateDirAll(dir) => Step::CreateDirAll(dir.deep_view()),
            FileStep::Create(path) => Step::Create(path.deep_view()),
            FileStep::WriteAll(content) => Step::WriteAll(content@),
            FileStep::SyncAll => Step::SyncAll,
            FileStep::OpenReadWrite(path) => Step::OpenReadWrite(path.deep_view()),
        }
    }
}

/// The steps that make a file for test data.
pub open spec fn temp_file_steps(file_name: Seq<char>, content: Seq<u8>) -> Seq<Step> {
    let path = testdata().push(file_name);
    seq![
        Step::CreateDirAll(testdata()),
        Step::Create(path),
        Step::WriteAll(content),
        Step::SyncAll,
        Step::OpenReadWrite(path),
    ]
}

/// The steps that make a file for test data with the given content. The last of them gives the
/// file to hand out. No directory but the one for test data is made, whatever the name.
pub fn get_temp_file<'a>(file_name: &str, content: &'a [u8]) -> (steps: Vec<FileStep<'a>>)
    ensures
        steps@.map_values(|step: FileStep<'a>| step@) == temp_file_steps(file_name@, content@),
        // The file is opened for handing out last of all, once its content is written and on disk.
        steps@.len() == 5,
        steps@[0] matches FileStep::CreateDirAll(dir) && dir.deep_view() == testdata(),
        steps@[1] matches FileStep::Create(path) && path.deep_view() == testdata().push(
            file_name@,
        ),
        steps@[2] matches FileStep::WriteAll(written) && written@ == content@,
        steps@[3] is SyncAll,
        steps@[4] matches FileStep::OpenReadWrite(path) && path.deep_view() == testdata().push(
            file_name@,
        ),
{
    let mut steps: Vec<FileStep<'a>> = Vec::new();
    steps.push(FileStep::CreateDirAll(testdata_dir()));
    steps.push(FileStep::Create(testdata_file(file_name.to_string())));
    steps.push(FileStep::WriteAll(content));
    steps.push(FileStep::SyncAll);
    steps.push(FileStep::OpenReadWrite(testdata_file(file_name.to_string())));
    assert(steps@.map_values(|step: FileStep<'a>| step@) =~= temp_file_steps(
        file_name@,
        content@,
    ));
    steps
}

/// What the steps of the kind that writes write, put together.
pub open spec fn written(steps: Seq<Step>) -> Seq<u8>
    decreases steps.len(),
{
    if steps.len() == 0 {
        Seq::empty()
    } else {
        match steps.last() {
            Step::WriteAll(content) => written(steps.drop_last()) + content,
            _ => written(steps.drop_last()),
        }
    }
}

/// The file is opened once, for handing out, and nothing is written or waited for after that.
/// Before it, the file is made once, under the same path, and emptied so; then all of the content
/// is written to it; then it is waited for. The one directory that is made is that for test data,
/// before anything else.
pub proof fn law_file_is_handed_out_last(file_name: Seq<char>, content: Seq<u8>)
    ensures
        ({
            let steps = temp_file_steps(file_name, content);
            let path = seq!["target"@, "debug"@, "testdata"@, file_name];
            &&& steps.len() > 0
            &&& steps.last() == Step::OpenReadWrite(path)
            &&& forall|i: int|
                0 <= i < steps.len() && #[trigger] steps[i] is OpenReadWrite ==> i == steps.len()
                    - 1
            &&& written(steps) == content
            &&& steps.first() == Step::CreateDirAll(seq!["target"@, "debug"@, "testdata"@])
            &&& forall|i: int|
                0 <= i < steps.len() && #[trigger] steps[i] is CreateDirAll ==> i == 0
            &&& exists|i: int| 0 <= i < steps.len() && #[trigger] steps[i] is Create
            &&& exists|i: int| 0 <= i < steps.len() && #[trigger] steps[i] is SyncAll
            &&& forall|i: int, j: int|
                #![trigger steps[i], steps[j]]
                0 <= i < steps.len() && 0 <= j < steps.len() && steps[i] is Create ==> {
                    &&& steps[i] == Step::Create(path)
                    &&& steps[j] is Create ==> i == j
                    &&& steps[j] is WriteAll ==> i < j
                }
            &&& forall|i: int, j: int|
                #![trigger steps[i], steps[j]]
                0 <= i < steps.len() && 0 <= j < steps.len() && steps[i] is WriteAll && steps[j]
                    is SyncAll ==> i < j
        }),
{
    let steps = temp_file_steps(file_name, content);
    let path = seq!["target"@, "debug"@, "testdata"@, file_name];
    assert(testdata().push(file_name) =~= path);
    assert(steps[1] is Create && steps[3] is SyncAll);
    assert(steps.drop_last() =~= steps.take(4));
    assert(steps.take(4).drop_last() =~= steps.take(3));
    assert(steps.take(3).drop_last() =~= steps.take(2));
    assert(steps.take(2).drop_last() =~= steps.take(1));
    assert(steps.take(1).drop_last() =~= Seq::<Step>::empty());
    reveal_with_fuel(written, 6);
    assert(written(steps) =~= content);
}

/// A step holds the plain values that it is seen as.
pub proof fn law_step_is_seen_as_it_is(step: FileStep<'_>)
    ensures
        match step {
            FileStep::CreateDirAll(dir) => step@ == Step::CreateDirAll(dir.deep_view()),
            FileStep::Create(path) => step@ == Step::Create(path.deep_view()),
            FileStep::WriteAll(content) => step@ == Step::WriteAll(content@),
            FileStep::SyncAll => step@ == Step::SyncAll,
            FileStep::OpenReadWrite(path) => step@ == Step::OpenReadWrite(path.deep_view()),
        },
{
}

} // verus!
