//! What is remembered across runs: where it is kept, how it is written, and what
//! it says.
use vstd::prelude::*;

use crate::json::{
    document, flags, flags_from_str, flags_text, flags_to_string, is_plain,
    lemma_member_is_the_last_listed, members_text, numbers_text, numbers_to_string, parse_text,
    whole_text, Json, JsonTree,
};
use crate::labels::{
    before, falls_short_at, lemma_last_entry_decides, lemma_to_map_at, lemma_to_map_dom, listed,
    sorted, to_map, LabelMap,
};
use crate::text::{chars_of, decimal, equals};

verus! {

/// The width of the window where none is remembered.
pub const WINDOW_W: i32 = 1100;

/// The height of the window where none is remembered.
pub const WINDOW_H: i32 = 620;

/// The least width that is restored.
pub const LEAST_W: i32 = 400;

/// The least height that is restored.
pub const LEAST_H: i32 = 300;

/// The file that holds the on/off state of the series.
pub const VISIBILITY_FILE: &'static str = "visibility.json";

/// The file that holds the size of the window.
pub const WINDOW_FILE: &'static str = "window.json";

/// The characters of a text that may be missing.
pub open spec fn text_view(t: Option<&str>) -> Option<Seq<char>> {
    match t {
        Some(s) => Some(s@),
        None => None,
    }
}

/// Whether polling activity is reported: the variable that asks for it is `1`.
pub fn debug_enabled(value: Option<&str>) -> (r: bool)
    ensures
        r == (text_view(value) == Some("1"@)),
{
    match value {
        Some(v) => equals(&chars_of(v), "1"),
        None => false,
    }
}

/// The path of a file: a directory, and the names to follow below it.
pub struct ConfigPath<T> {
    /// The directory to start from.
    pub root: T,
    /// The names below it, outermost first.
    pub below: Vec<String>,
}

impl<T> ConfigPath<T> {
    /// The names below the root.
    pub open spec fn names(self) -> Seq<Seq<char>> {
        self.below@.map_values(|s: String| s@)
    }
}

/// The path of the configuration file `name`: in `kagari` under the user's
/// configuration directory or, where that is not set, under `.config` in the home
/// directory. There is none where neither is known.
pub fn config_file<T>(config_home: Option<T>, home: Option<T>, name: &str) -> (r: Option<
    ConfigPath<T>,
>)
    ensures
        match (config_home, home) {
            (Some(c), _) => {
                &&& r is Some
                &&& r->0.root == c
                &&& r->0.names() == seq!["kagari"@, name@]
            },
            (None, Some(h)) => {
                &&& r is Some
                &&& r->0.root == h
                &&& r->0.names() == seq![".config"@, "kagari"@, name@]
            },
            (None, None) => r is None,
        },
{
    let mut below: Vec<String> = Vec::new();
    let root = match config_home {
        Some(c) => c,
        None => match home {
            Some(h) => {
                below.push(".config".to_owned());
                h
            },
            None => {
                return None;
            },
        },
    };
    below.push("kagari".to_owned());
    below.push(name.to_owned());
    let path = ConfigPath { root, below };
    assert(config_home is Some ==> path.names() =~= seq!["kagari"@, name@]);
    assert(config_home is None ==> path.names() =~= seq![".config"@, "kagari"@, name@]);
    Some(path)
}

/// A step in writing a configuration file.
#[derive(Clone, Copy, Debug, PartialEq, Eq, Structural)]
pub enum WriteStep {
    /// Make the directory that holds the file.
    CreateDir,
    /// Write the contents to the temporary file beside it.
    WriteTemp,
    /// Put the temporary file in its place.
    Rename,
    /// Nothing is left to do.
    Done,
}

impl WriteStep {
    /// The step with which writing a file begins.
    pub open spec fn spec_first(has_parent: bool) -> WriteStep {
        if has_parent {
            WriteStep::CreateDir
        } else {
            WriteStep::WriteTemp
        }
    }

    /// The step that follows, after this one went well or did not.
    pub open spec fn spec_next(self, ok: bool) -> WriteStep {
        match self {
            WriteStep::CreateDir => WriteStep::WriteTemp,
            WriteStep::WriteTemp => if ok {
                WriteStep::Rename
            } else {
                WriteStep::Done
            },
            WriteStep::Rename => WriteStep::Done,
            WriteStep::Done => WriteStep::Done,
        }
    }

    /// The step with which writing a file begins. A directory is made if the path
    /// has one.
    pub fn first(has_parent: bool) -> (r: WriteStep)
        ensures
            r == WriteStep::spec_first(has_parent),
    {
        if has_parent {
            WriteStep::CreateDir
        } else {
            WriteStep::WriteTemp
        }
    }

    /// The step that follows. Failures are passed over: a directory that cannot be
    /// made may be there already, and a file that cannot be written is left as it
    /// was.
    pub fn next(self, ok: bool) -> (r: WriteStep)
        ensures
            r == self.spec_next(ok),
    {
        match self {
            WriteStep::CreateDir => WriteStep::WriteTemp,
            WriteStep::WriteTemp => if ok {
                WriteStep::Rename
            } else {
                WriteStep::Done
            },
            WriteStep::Rename => WriteStep::Done,
            WriteStep::Done => WriteStep::Done,
        }
    }
}

/// What a configuration file and the temporary file beside it hold.
pub struct Files {
    /// The contents of the file, if it exists.
    pub target: Option<Seq<char>>,
    /// The contents of the temporary file, if it exists.
    pub temp: Option<Seq<char>>,
}

/// What becomes of the files when a step is performed. A write that fails may
/// leave anything in the temporary file; a rename takes effect wholly or not at
/// all.
pub open spec fn perform(
    files: Files,
    step: WriteStep,
    contents: Seq<char>,
    ok: bool,
    remains: Option<Seq<char>>,
) -> Files {
    match step {
        WriteStep::WriteTemp => if ok {
            Files { target: files.target, temp: Some(contents) }
        } else {
            Files { target: files.target, temp: remains }
        },
        WriteStep::Rename => if ok {
            Files { target: files.temp, temp: None }
        } else {
            files
        },
        _ => files,
    }
}

/// The files after the steps from `step` on have had these outcomes.
pub open spec fn perform_all(
    files: Files,
    step: WriteStep,
    contents: Seq<char>,
    outcomes: Seq<(bool, Option<Seq<char>>)>,
) -> Files
    decreases outcomes.len(),
{
    if outcomes.len() == 0 {
        files
    } else {
        let (ok, remains) = outcomes[0];
        perform_all(
            perform(files, step, contents, ok, remains),
            step.spec_next(ok),
            contents,
            outcomes.skip(1),
        )
    }
}

/// A file is written atomically: whatever fails, and wherever the writing stops,
/// the file holds what it held before or all of the new contents.
pub proof fn lemma_write_is_atomic(
    files: Files,
    has_parent: bool,
    contents: Seq<char>,
    outcomes: Seq<(bool, Option<Seq<char>>)>,
)
    ensures
        ({
            let after = perform_all(files, WriteStep::spec_first(has_parent), contents, outcomes);
            after.target == files.target || after.target == Some(contents)
        }),
{
    lemma_steps_are_atomic(files, WriteStep::spec_first(has_parent), contents, outcomes);
}

proof fn lemma_steps_are_atomic(
    files: Files,
    step: WriteStep,
    contents: Seq<char>,
    outcomes: Seq<(bool, Option<Seq<char>>)>,
)
    requires
        step is Rename ==> files.temp == Some(contents),
    ensures
        ({
            let after = perform_all(files, step, contents, outcomes);
            after.target == files.target || after.target == Some(contents)
        }),
    decreases outcomes.len(),
{
    if outcomes.len() > 0 {
        let (ok, remains) = outcomes[0];
        lemma_steps_are_atomic(
            perform(files, step, contents, ok, remains),
            step.spec_next(ok),
            contents,
            outcomes.skip(1),
        );
    }
}

/// Where every step goes well, the file holds the new contents, and no temporary
/// file is left.
pub proof fn lemma_write_succeeds(
    files: Files,
    has_parent: bool,
    contents: Seq<char>,
    outcomes: Seq<(bool, Option<Seq<char>>)>,
)
    requires
        outcomes.len() >= 3,
        forall|i: int| 0 <= i < outcomes.len() ==> (#[trigger] outcomes[i]).0,
    ensures
        perform_all(files, WriteStep::spec_first(has_parent), contents, outcomes) == (Files {
            target: Some(contents),
            temp: None,
        }),
{
    reveal_with_fuel(perform_all, 4);
    let one = outcomes.skip(1);
    let two = one.skip(1);
    assert(one[0] == outcomes[1]);
    assert(two[0] == outcomes[2]);
    let first = WriteStep::spec_first(has_parent);
    let f1 = perform(files, first, contents, true, outcomes[0].1);
    let s1 = first.spec_next(true);
    let f2 = perform(f1, s1, contents, true, one[0].1);
    let s2 = s1.spec_next(true);
    let f3 = perform(f2, s2, contents, true, two[0].1);
    lemma_done_changes_nothing(f3, contents, two.skip(1));
}

proof fn lemma_done_changes_nothing(
    files: Files,
    contents: Seq<char>,
    outcomes: Seq<(bool, Option<Seq<char>>)>,
)
    ensures
        perform_all(files, WriteStep::Done, contents, outcomes) == files,
    decreases outcomes.len(),
{
    if outcomes.len() > 0 {
        lemma_done_changes_nothing(files, contents, outcomes.skip(1));
    }
}

/// The on/off states that a saved text gives: none where there is no text, or
/// where it does not hold them.
pub open spec fn saved_visibility(text: Option<Seq<char>>) -> Map<Seq<char>, bool> {
    match text {
        Some(t) => states_of(flags(t)),
        None => Map::empty(),
    }
}

/// The on/off states that were read, or none.
pub open spec fn states_of(entries: Option<Seq<(Seq<char>, bool)>>) -> Map<Seq<char>, bool> {
    match entries {
        Some(es) => to_map(es),
        None => Map::empty(),
    }
}

/// The on/off states that were read, or none.
pub fn visibility_of(entries: Option<Vec<(String, bool)>>) -> (r: LabelMap<bool>)
    ensures
        r.wf(),
        r@ == states_of(
            match entries {
                Some(v) => Some(listed(v@)),
                None => None,
            },
        ),
{
    match entries {
        Some(v) => LabelMap::from_entries(&v),
        None => LabelMap::new(),
    }
}

/// The on/off states that a saved text gives.
pub fn load_visibility(text: Option<&str>) -> (r: LabelMap<bool>)
    ensures
        r.wf(),
        r@ == saved_visibility(text_view(text)),
{
    match text {
        Some(t) => visibility_of(flags_from_str(t)),
        None => LabelMap::new(),
    }
}

/// The text that remembers these on/off states. They are what a later load finds
/// in it.
pub fn save_visibility(states: &LabelMap<bool>) -> (r: Option<String>)
    requires
        states.wf(),
    ensures
        r is Some,
        r->0@ == flags_text(states.listing()),
        saved_visibility(Some(r->0@)) == states@,
{
    flags_to_string(states.entries())
}

/// The low half of a 64-bit number, as a signed number.
pub open spec fn low_half(n: int) -> int {
    (n + 0x8000_0000) % 0x1_0000_0000 - 0x8000_0000
}

/// One dimension of the window: the remembered whole number, or the default, but
/// never less than `least`.
pub open spec fn dimension(saved: Option<i64>, default: int, least: int) -> int {
    let n = match saved {
        Some(n) => low_half(n as int),
        None => default,
    };
    if n < least {
        least
    } else {
        n
    }
}

/// The whole number under a name in a document, if there is one.
pub open spec fn whole_under(doc: JsonTree, name: Seq<char>) -> Option<i64> {
    match doc.member(name) {
        Some(t) => t.whole(),
        None => None,
    }
}

/// The size of the window that a remembered document gives.
pub open spec fn window_size(doc: Option<JsonTree>) -> (int, int) {
    match doc {
        Some(d) => (
            dimension(whole_under(d, "width"@), WINDOW_W as int, LEAST_W as int),
            dimension(whole_under(d, "height"@), WINDOW_H as int, LEAST_H as int),
        ),
        None => (WINDOW_W as int, WINDOW_H as int),
    }
}

fn restore(saved: Option<i64>, default: i32, least: i32) -> (r: i32)
    ensures
        r == dimension(saved, default as int, least as int),
{
    let n: i32 = match saved {
        Some(x) => {
            proof {
                assert(#[verifier::truncate] (x as i32) == (x + 0x8000_0000) % 0x1_0000_0000
                    - 0x8000_0000) by (bit_vector);
            }
            #[verifier::truncate]
            (x as i32)
        },
        None => default,
    };
    if n < least {
        least
    } else {
        n
    }
}

fn whole_at(doc: &Json, name: &str) -> (r: Option<i64>)
    ensures
        r == whole_under(doc.tree(), name@),
{
    match doc.get(name) {
        Some(j) => j.as_i64(),
        None => None,
    }
}

/// The size of the window, width and height, that a remembered document gives.
pub fn window_size_of(doc: Option<&Json>) -> (r: (i32, i32))
    ensures
        (r.0 as int, r.1 as int) == window_size(
            match doc {
                Some(j) => Some(j.tree()),
                None => None,
            },
        ),
{
    match doc {
        Some(j) => (
            restore(whole_at(j, "width"), WINDOW_W, LEAST_W),
            restore(whole_at(j, "height"), WINDOW_H, LEAST_H),
        ),
        None => (WINDOW_W, WINDOW_H),
    }
}

/// The size of the window, width and height, that a saved text gives.
pub fn load_window_size(text: Option<&str>) -> (r: (i32, i32))
    ensures
        (r.0 as int, r.1 as int) == window_size(
            match text {
                Some(t) => document(t@),
                None => None,
            },
        ),
{
    match text {
        Some(t) => match parse_text(t) {
            Some(j) => window_size_of(Some(&j)),
            None => window_size_of(None),
        },
        None => window_size_of(None),
    }
}

/// The text that remembers the size of the window. What a later load finds in it
/// is that size, raised to the least that is restored.
pub fn save_window_size(width: i32, height: i32) -> (r: String)
    ensures
        r@ == numbers_text(seq![("height"@, height as i64), ("width"@, width as i64)]),
        window_size(document(r@)) == (
            if width < LEAST_W {
                LEAST_W as int
            } else {
                width as int
            },
            if height < LEAST_H {
                LEAST_H as int
            } else {
                height as int
            },
        ),
{
    let mut members: Vec<(String, i64)> = Vec::new();
    members.push(("height".to_owned(), height as i64));
    members.push(("width".to_owned(), width as i64));
    let ghost ms = seq![("height"@, height as i64), ("width"@, width as i64)];
    proof {
        assert(listed(members@) =~= ms);
        reveal_strlit("height");
        reveal_strlit("width");
        assert(falls_short_at("height"@, "width"@, 0));
        assert(sorted(ms));
        assert(is_plain("height"@));
        assert(is_plain("width"@));
    }
    let r = numbers_to_string(&members);
    proof {
        let es = document(r@)->0->Object_0;
        assert(es[0].0 == ms[0].0 && es[1].0 == ms[1].0);
        assert(before(es[0].0, es[1].0));
        assert(sorted(es));
        lemma_to_map_at(es, 0);
        lemma_to_map_at(es, 1);
    }
    r
}

/// However a remembered size is corrupted, the window is not tiny.
pub proof fn lemma_window_is_not_tiny(doc: Option<JsonTree>)
    ensures
        window_size(doc).0 >= LEAST_W,
        window_size(doc).1 >= LEAST_H,
{
}

/// Every on/off state that a saved text holds is restored, and no other is; of several
/// under one label the last decides. A text that holds none restores none.
pub proof fn lemma_saved_states_are_restored(text: Seq<char>, i: int, label: Seq<char>)
    ensures
        saved_visibility(None) == Map::<Seq<char>, bool>::empty(),
        flags(text) is None ==> saved_visibility(Some(text)) == Map::<Seq<char>, bool>::empty(),
        flags(text) matches Some(es) ==> (0 <= i < es.len() && (forall|j: int|
            i < j < es.len() ==> (#[trigger] es[j]).0 != es[i].0) ==> saved_visibility(
            Some(text),
        ).contains_key(es[i].0) && saved_visibility(Some(text))[es[i].0] == es[i].1),
        flags(text) matches Some(es) ==> (saved_visibility(Some(text)).contains_key(label)
            ==> exists|j: int| 0 <= j < es.len() && #[trigger] es[j].0 == label),
{
    if let Some(es) = flags(text) {
        if 0 <= i < es.len() && (forall|j: int| i < j < es.len() ==> (#[trigger] es[j]).0
            != es[i].0) {
            lemma_last_entry_decides(es, i);
        }
        lemma_to_map_dom(es, label);
    }
}

/// Where no document is remembered, the window is 1100 wide and 620 high.
pub proof fn lemma_window_has_a_default_size()
    ensures
        window_size(None) == (1100int, 620int),
{
}

/// The width that is restored is the whole number that is remembered last, but at least
/// 400; of a number that does not fit in 32 bits, what its low 32 bits denote. Where no
/// whole number is remembered it is 1100.
pub proof fn lemma_width_is_restored(
    members: Seq<(Seq<char>, JsonTree)>,
    i: int,
    n: i64,
    double: Option<u64>,
    low: int,
)
    requires
        -0x8000_0000 <= low < 0x8000_0000,
        (n - low) % 0x1_0000_0000 == 0,
    ensures
        0 <= i < members.len() && members[i].0 == "width"@ && (forall|j: int|
            i < j < members.len() ==> (#[trigger] members[j]).0 != "width"@) ==> {
            &&& members[i].1 == (JsonTree::Number { double, integer: Some(n) }) && low >= 400
                ==> window_size(Some(JsonTree::Object(members))).0 == low
            &&& members[i].1 == (JsonTree::Number { double, integer: Some(n) }) && low < 400
                ==> window_size(Some(JsonTree::Object(members))).0 == 400
            &&& members[i].1 == (JsonTree::Number { double, integer: None }) || !(
            members[i].1 is Number) ==> window_size(Some(JsonTree::Object(members))).0 == 1100
        },
        (forall|j: int| 0 <= j < members.len() ==> (#[trigger] members[j]).0 != "width"@)
            ==> window_size(Some(JsonTree::Object(members))).0 == 1100,
{
    lemma_member_is_the_last_listed(members, i, "width"@);
    lemma_low_half(n as int, low);
}

/// The height that is restored is the whole number that is remembered last, but at least
/// 300; of a number that does not fit in 32 bits, what its low 32 bits denote. Where no
/// whole number is remembered it is 620.
pub proof fn lemma_height_is_restored(
    members: Seq<(Seq<char>, JsonTree)>,
    i: int,
    n: i64,
    double: Option<u64>,
    low: int,
)
    requires
        -0x8000_0000 <= low < 0x8000_0000,
        (n - low) % 0x1_0000_0000 == 0,
    ensures
        0 <= i < members.len() && members[i].0 == "height"@ && (forall|j: int|
            i < j < members.len() ==> (#[trigger] members[j]).0 != "height"@) ==> {
            &&& members[i].1 == (JsonTree::Number { double, integer: Some(n) }) && low >= 300
                ==> window_size(Some(JsonTree::Object(members))).1 == low
            &&& members[i].1 == (JsonTree::Number { double, integer: Some(n) }) && low < 300
                ==> window_size(Some(JsonTree::Object(members))).1 == 300
            &&& members[i].1 == (JsonTree::Number { double, integer: None }) || !(
            members[i].1 is Number) ==> window_size(Some(JsonTree::Object(members))).1 == 620
        },
        (forall|j: int| 0 <= j < members.len() ==> (#[trigger] members[j]).0 != "height"@)
            ==> window_size(Some(JsonTree::Object(members))).1 == 620,
{
    lemma_member_is_the_last_listed(members, i, "height"@);
    lemma_low_half(n as int, low);
}

/// A document that is no object restores the default size.
pub proof fn lemma_only_objects_restore_a_size(doc: JsonTree)
    requires
        !(doc is Object),
    ensures
        window_size(Some(doc)) == (1100int, 620int),
{
}

proof fn lemma_low_half(n: int, low: int)
    requires
        -0x8000_0000 <= low < 0x8000_0000,
        (n - low) % 0x1_0000_0000 == 0,
    ensures
        low_half(n) == low,
{
}

/// A file is written in at most three steps: its directory is made where it has one, the
/// contents go to a temporary file, and this is put in the place of the file. Only
/// contents that were written are put there; that the directory could not be made stops
/// nothing.
pub proof fn lemma_steps_of_a_write(made: bool, wrote: bool, renamed: bool)
    ensures
        WriteStep::spec_first(true) == WriteStep::CreateDir,
        WriteStep::spec_first(false) == WriteStep::WriteTemp,
        WriteStep::CreateDir.spec_next(made) == WriteStep::WriteTemp,
        WriteStep::WriteTemp.spec_next(true) == WriteStep::Rename,
        WriteStep::WriteTemp.spec_next(false) == WriteStep::Done,
        WriteStep::Rename.spec_next(renamed) == WriteStep::Done,
        WriteStep::Done.spec_next(wrote) == WriteStep::Done,
{
}

/// A file whose directory could not be made, as it may be there already, is written all
/// the same.
pub proof fn lemma_directory_need_not_be_made(
    files: Files,
    contents: Seq<char>,
    outcomes: Seq<(bool, Option<Seq<char>>)>,
)
    requires
        outcomes.len() == 3,
        outcomes[1].0,
        outcomes[2].0,
    ensures
        perform_all(files, WriteStep::spec_first(true), contents, outcomes) == (Files {
            target: Some(contents),
            temp: None,
        }),
{
    reveal_with_fuel(perform_all, 4);
    let one = outcomes.skip(1);
    let two = one.skip(1);
    assert(one[0] == outcomes[1]);
    assert(two[0] == outcomes[2]);
    assert(two.skip(1).len() == 0);
}

/// A file stays as it was where the contents could not be written, or could not be put in
/// its place.
pub proof fn lemma_failed_write_keeps_the_file(
    files: Files,
    contents: Seq<char>,
    outcomes: Seq<(bool, Option<Seq<char>>)>,
)
    requires
        outcomes.len() == 3,
        !outcomes[1].0 || !outcomes[2].0,
    ensures
        perform_all(files, WriteStep::spec_first(true), contents, outcomes).target == files.target,
        perform_all(files, WriteStep::spec_first(false), contents, outcomes.skip(1)).target
            == files.target,
{
    reveal_with_fuel(perform_all, 4);
    let one = outcomes.skip(1);
    let two = one.skip(1);
    assert(one[0] == outcomes[1]);
    assert(two[0] == outcomes[2]);
    assert(two.skip(1).len() == 0);
}

/// The size of the window is written as a document with its height and its width, in
/// decimal digits.
pub proof fn lemma_size_is_written_in_digits(width: nat, height: nat)
    requires
        width <= i32::MAX,
        height <= i32::MAX,
    ensures
        numbers_text(seq![("height"@, height as i64), ("width"@, width as i64)])
            == "{\"height\":"@ + decimal(height) + ",\"width\":"@ + decimal(width) + "}"@,
        numbers_text(seq![("height"@, -(height as i64) as i64), ("width"@, -(width as i64) as i64)])
            == "{\"height\":"@ + (if height > 0 {
            "-"@
        } else {
            Seq::<char>::empty()
        }) + decimal(height) + ",\"width\":"@ + (if width > 0 {
            "-"@
        } else {
            Seq::<char>::empty()
        }) + decimal(width) + "}"@,
{
    reveal_strlit("height");
    reveal_strlit("width");
    reveal_strlit("{\"height\":");
    reveal_strlit(",\"width\":");
    reveal_strlit("{");
    reveal_strlit("}");
    reveal_strlit(",");
    reveal_strlit("\"");
    reveal_strlit("\":");
    reveal_strlit("-");
    reveal_with_fuel(members_text, 3);
    let a = seq![("height"@, height as i64), ("width"@, width as i64)];
    assert(a.drop_last() =~= seq![("height"@, height as i64)]);
    assert(numbers_text(a) =~= "{\"height\":"@ + decimal(height) + ",\"width\":"@ + decimal(width)
        + "}"@);
    let h = -(height as i64) as i64;
    let w = -(width as i64) as i64;
    let b = seq![("height"@, h), ("width"@, w)];
    assert(b.drop_last() =~= seq![("height"@, h)]);
    let ht = (if height > 0 {
        "-"@
    } else {
        Seq::<char>::empty()
    }) + decimal(height);
    let wt = (if width > 0 {
        "-"@
    } else {
        Seq::<char>::empty()
    }) + decimal(width);
    assert(whole_text(h) =~= ht);
    assert(whole_text(w) =~= wt);
    assert(numbers_text(b) =~= "{\"height\":"@ + (if height > 0 {
        "-"@
    } else {
        Seq::<char>::empty()
    }) + decimal(height) + ",\"width\":"@ + (if width > 0 {
        "-"@
    } else {
        Seq::<char>::empty()
    }) + decimal(width) + "}"@);
}

/// The names of a path are those below its root, in order.
pub proof fn lemma_names_are_those_below<T>(path: ConfigPath<T>, i: int)
    requires
        0 <= i < path.below@.len(),
    ensures
        path.names().len() == path.below@.len(),
        path.names()[i] == path.below@[i]@,
{
}

} // verus!
