//! The descriptor parser: turns the text of one desktop-entry file into a
//! validated record, or into one reason of a closed rejection taxonomy.

use vstd::prelude::*;
use vstd::string::*;

use crate::text::lines_of;
use crate::text::split_lines;
use crate::text::split_list;
use crate::text::split_semi;
use crate::text::starts_with;
use crate::text::str_eq;
use crate::text::str_has_prefix;
use crate::text::tail_of;

verus! {

/// A parsed application descriptor. Both `name` and `command_line` are
/// always populated; every other field takes a default when its key is
/// absent.
#[derive(Clone, Debug)]
pub struct DesktopEntry {
    pub name: String,
    pub icon: Option<String>,
    pub generic_name: Option<String>,
    pub comment: Option<String>,
    pub command_line: String,
    pub path: Option<String>,
    pub terminal: bool,
    pub categories: Vec<String>,
    pub keywords: Vec<String>,
}

/// The mathematical model of a descriptor record.
#[verifier::ext_equal]
pub struct EntryModel {
    pub name: Seq<char>,
    pub icon: Option<Seq<char>>,
    pub generic_name: Option<Seq<char>>,
    pub comment: Option<Seq<char>>,
    pub command_line: Seq<char>,
    pub path: Option<Seq<char>>,
    pub terminal: bool,
    pub categories: Seq<Seq<char>>,
    pub keywords: Seq<Seq<char>>,
}

impl View for DesktopEntry {
    type V = EntryModel;

    open spec fn view(&self) -> EntryModel {
        EntryModel {
            name: self.name@,
            icon: self.icon.deep_view(),
            generic_name: self.generic_name.deep_view(),
            comment: self.comment.deep_view(),
            command_line: self.command_line@,
            path: self.path.deep_view(),
            terminal: self.terminal,
            categories: self.categories.deep_view(),
            keywords: self.keywords.deep_view(),
        }
    }
}

impl DeepView for DesktopEntry {
    type V = EntryModel;

    open spec fn deep_view(&self) -> EntryModel {
        self.view()
    }
}

/// Why a descriptor file yielded no record. The first four variants are
/// expected filtering outcomes that callers skip silently; the rest are
/// reportable failures.
#[derive(Clone, Copy, Debug, PartialEq, Eq, Structural)]
pub enum DesktopEntryErr {
    InvalidGroupHeader,
    NotApplication,
    Hidden,
    OnlyShowIn,
    NotShowIn,
    MissingName,
    MissingExec,
    IOFailure,
}

impl DesktopEntryErr {
    /// Whether this rejection is an expected filtering outcome that is
    /// dropped without being reported.
    pub open spec fn spec_is_silent(self) -> bool {
        match self {
            DesktopEntryErr::NotApplication => true,
            DesktopEntryErr::Hidden => true,
            DesktopEntryErr::OnlyShowIn => true,
            DesktopEntryErr::NotShowIn => true,
            _ => false,
        }
    }

    /// Expected filtering outcomes are silent skips; malformed-input and
    /// I/O rejections are reportable.
    #[verifier::when_used_as_spec(spec_is_silent)]
    pub fn is_silent(self) -> (r: bool)
        ensures
            r == self.spec_is_silent(),
    {
        match self {
            DesktopEntryErr::NotApplication => true,
            DesktopEntryErr::Hidden => true,
            DesktopEntryErr::OnlyShowIn => true,
            DesktopEntryErr::NotShowIn => true,
            _ => false,
        }
    }
}

/// The field-assignment state while scanning the lines of a file: which
/// section the scan is in, and each field either unset or set to the value
/// of its first occurrence.
#[verifier::ext_equal]
pub struct ScanModel {
    pub in_de: bool,
    pub name: Option<Seq<char>>,
    pub icon: Option<Seq<char>>,
    pub generic_name: Option<Seq<char>>,
    pub comment: Option<Seq<char>>,
    pub command_line: Option<Seq<char>>,
    pub path: Option<Seq<char>>,
    pub terminal: Option<bool>,
    pub categories: Option<Seq<Seq<char>>>,
    pub keywords: Option<Seq<Seq<char>>>,
}

pub open spec fn scan_init() -> ScanModel {
    ScanModel {
        in_de: false,
        name: None,
        icon: None,
        generic_name: None,
        comment: None,
        command_line: None,
        path: None,
        terminal: None,
        categories: None,
        keywords: None,
    }
}

/// First occurrence wins: an already-set field keeps its value.
pub open spec fn or_keep<T>(cur: Option<T>, v: T) -> Option<T> {
    if cur is None {
        Some(v)
    } else {
        cur
    }
}

pub open spec fn seq_or_empty(o: Option<Seq<char>>) -> Seq<char> {
    match o {
        Some(v) => v,
        None => Seq::empty(),
    }
}

pub open spec fn list_or_empty(o: Option<Seq<Seq<char>>>) -> Seq<Seq<char>> {
    match o {
        Some(v) => v,
        None => Seq::empty(),
    }
}

pub open spec fn bool_or_false(o: Option<bool>) -> bool {
    match o {
        Some(b) => b,
        None => false,
    }
}

/// The identifier of the running environment, matched against the
/// `OnlyShowIn=` and `NotShowIn=` lists.
pub open spec fn environment_id() -> Seq<char> {
    "Sway"@
}

/// One step of the line scan: classifies a single line by its prefix and
/// either updates the state or rejects the whole file.
pub open spec fn scan_step(st: ScanModel, l: Seq<char>) -> Result<ScanModel, DesktopEntryErr> {
    if l.len() > 0 && l[0] == '[' {
        if l.len() < 3 {
            Err(DesktopEntryErr::InvalidGroupHeader)
        } else {
            Ok(ScanModel { in_de: l.subrange(1, l.len() - 1) == "Desktop Entry"@, ..st })
        }
    } else if !st.in_de {
        Ok(st)
    } else if starts_with(l, "Type="@) {
        if l.skip("Type="@.len() as int) == "Application"@ {
            Ok(st)
        } else {
            Err(DesktopEntryErr::NotApplication)
        }
    } else if starts_with(l, "Name="@) {
        Ok(ScanModel { name: or_keep(st.name, l.skip("Name="@.len() as int)), ..st })
    } else if starts_with(l, "Icon="@) {
        Ok(ScanModel { icon: or_keep(st.icon, l.skip("Icon="@.len() as int)), ..st })
    } else if starts_with(l, "GenericName="@) {
        Ok(
            ScanModel {
                generic_name: or_keep(st.generic_name, l.skip("GenericName="@.len() as int)),
                ..st
            },
        )
    } else if starts_with(l, "Comment="@) {
        Ok(ScanModel { comment: or_keep(st.comment, l.skip("Comment="@.len() as int)), ..st })
    } else if starts_with(l, "Exec="@) {
        Ok(ScanModel { command_line: or_keep(st.command_line, l.skip("Exec="@.len() as int)), ..st })
    } else if starts_with(l, "Path="@) {
        Ok(ScanModel { path: or_keep(st.path, l.skip("Path="@.len() as int)), ..st })
    } else if starts_with(l, "Terminal="@) {
        Ok(
            ScanModel {
                terminal: or_keep(st.terminal, l.skip("Terminal="@.len() as int) == "true"@),
                ..st
            },
        )
    } else if starts_with(l, "Categories="@) {
        Ok(
            ScanModel {
                categories: or_keep(st.categories, split_semi(l.skip("Categories="@.len() as int))),
                ..st
            },
        )
    } else if starts_with(l, "Keywords="@) {
        Ok(
            ScanModel {
                keywords: or_keep(st.keywords, split_semi(l.skip("Keywords="@.len() as int))),
                ..st
            },
        )
    } else if starts_with(l, "Hidden="@) {
        if l.skip("Hidden="@.len() as int) == "true"@ {
            Err(DesktopEntryErr::Hidden)
        } else {
            Ok(st)
        }
    } else if starts_with(l, "OnlyShowIn="@) {
        if split_semi(l.skip("OnlyShowIn="@.len() as int)).contains(environment_id()) {
            Ok(st)
        } else {
            Err(DesktopEntryErr::OnlyShowIn)
        }
    } else if starts_with(l, "NotShowIn="@) {
        if split_semi(l.skip("NotShowIn="@.len() as int)).contains(environment_id()) {
            Err(DesktopEntryErr::NotShowIn)
        } else {
            Ok(st)
        }
    } else {
        Ok(st)
    }
}

/// The scan of a whole sequence of lines, line by line from the first.
pub open spec fn scan_lines(lines: Seq<Seq<char>>) -> Result<ScanModel, DesktopEntryErr>
    decreases lines.len(),
{
    if lines.len() == 0 {
        Ok(scan_init())
    } else {
        match scan_lines(lines.drop_last()) {
            Ok(st) => scan_step(st, lines.last()),
            Err(e) => Err(e),
        }
    }
}

/// Scanning one more line applies one `scan_step` to the scan of the prefix.
pub proof fn lemma_scan_take_step(lines: Seq<Seq<char>>, i: int)
    requires
        0 <= i < lines.len(),
    ensures
        scan_lines(lines.take(i + 1)) == (match scan_lines(lines.take(i)) {
            Ok(st) => scan_step(st, lines[i]),
            Err(e) => Err(e),
        }),
{
    let t = lines.take(i + 1);
    assert(t.drop_last() =~= lines.take(i));
    assert(t.last() == lines[i]);
}

/// A rejection reached at any prefix of the lines is the outcome of the
/// whole scan.
pub proof fn lemma_scan_err_persists(lines: Seq<Seq<char>>, i: int)
    requires
        0 <= i <= lines.len(),
        scan_lines(lines.take(i)) is Err,
    ensures
        scan_lines(lines) == scan_lines(lines.take(i)),
    decreases lines.len(),
{
    if i == lines.len() {
        assert(lines.take(i) =~= lines);
    } else {
        let shorter = lines.drop_last();
        assert(shorter.take(i) =~= lines.take(i));
        lemma_scan_err_persists(shorter, i);
    }
}

/// The record a completed scan yields: unset optional fields default, a
/// missing name or command line is checked by `parse_spec`.
pub open spec fn entry_of_scan(st: ScanModel) -> EntryModel {
    EntryModel {
        name: seq_or_empty(st.name),
        icon: st.icon,
        generic_name: st.generic_name,
        comment: st.comment,
        command_line: seq_or_empty(st.command_line),
        path: st.path,
        terminal: bool_or_false(st.terminal),
        categories: list_or_empty(st.categories),
        keywords: list_or_empty(st.keywords),
    }
}

/// What parsing a descriptor text yields: the record, or the first
/// rejection the line scan reaches, with a missing name reported before a
/// missing command line.
pub open spec fn parse_spec(text: Seq<char>) -> Result<EntryModel, DesktopEntryErr> {
    match scan_lines(split_lines(text)) {
        Err(e) => Err(e),
        Ok(st) => if st.name is None {
            Err(DesktopEntryErr::MissingName)
        } else if st.command_line is None {
            Err(DesktopEntryErr::MissingExec)
        } else {
            Ok(entry_of_scan(st))
        },
    }
}

/// The model of a parse outcome.
pub open spec fn result_model(r: Result<DesktopEntry, DesktopEntryErr>) -> Result<
    EntryModel,
    DesktopEntryErr,
> {
    match r {
        Ok(e) => Ok(e@),
        Err(err) => Err(err),
    }
}

/// The executable counterpart of `ScanModel`.
struct ScanState {
    in_de: bool,
    name: Option<String>,
    icon: Option<String>,
    generic_name: Option<String>,
    comment: Option<String>,
    command_line: Option<String>,
    path: Option<String>,
    terminal: Option<bool>,
    categories: Option<Vec<String>>,
    keywords: Option<Vec<String>>,
}

impl View for ScanState {
    type V = ScanModel;

    closed spec fn view(&self) -> ScanModel {
        ScanModel {
            in_de: self.in_de,
            name: self.name.deep_view(),
            icon: self.icon.deep_view(),
            generic_name: self.generic_name.deep_view(),
            comment: self.comment.deep_view(),
            command_line: self.command_line.deep_view(),
            path: self.path.deep_view(),
            terminal: self.terminal,
            categories: self.categories.deep_view(),
            keywords: self.keywords.deep_view(),
        }
    }
}

/// Whether any element of `v` equals `t`, compared by characters.
fn list_contains(v: &Vec<String>, t: &str) -> (r: bool)
    ensures
        r == v.deep_view().contains(t@),
{
    let n = v.len();
    let mut i: usize = 0;
    while i < n
        invariant
            n == v@.len(),
            0 <= i <= n,
            forall|j: int| 0 <= j < i ==> v.deep_view()[j] != t@,
        decreases n - i,
    {
        if str_eq(v[i].as_str(), t) {
            proof {
                assert(v.deep_view()[i as int] == t@);
            }
            return true;
        }
        i += 1;
    }
    false
}

/// Applies `scan_step` for one line: `None` keeps scanning with the updated
/// state, `Some` rejects the file.
fn scan_one(st: &mut ScanState, line: &str) -> (r: Option<DesktopEntryErr>)
    ensures
        match r {
            None => scan_step(old(st)@, line@) == Ok::<ScanModel, DesktopEntryErr>(final(st)@),
            Some(e) => scan_step(old(st)@, line@) == Err::<ScanModel, DesktopEntryErr>(e),
        },
{
    let n = line.unicode_len();
    if n > 0 && line.get_char(0) == '[' {
        if n < 3 {
            return Some(DesktopEntryErr::InvalidGroupHeader);
        }
        let section = line.substring_char(1, n - 1);
        st.in_de = str_eq(section, "Desktop Entry");
        return None;
    }
    if !st.in_de {
        return None;
    }
    if str_has_prefix(line, "Type=") {
        proof {
            reveal_strlit("Type=");
        }
        let v = tail_of(line, 5);
        if str_eq(v.as_str(), "Application") {
            return None;
        } else {
            return Some(DesktopEntryErr::NotApplication);
        }
    }
    if str_has_prefix(line, "Name=") {
        proof {
            reveal_strlit("Name=");
        }
        if st.name.is_none() {
            st.name = Some(tail_of(line, 5));
        }
        return None;
    }
    if str_has_prefix(line, "Icon=") {
        proof {
            reveal_strlit("Icon=");
        }
        if st.icon.is_none() {
            st.icon = Some(tail_of(line, 5));
        }
        return None;
    }
    if str_has_prefix(line, "GenericName=") {
        proof {
            reveal_strlit("GenericName=");
        }
        if st.generic_name.is_none() {
            st.generic_name = Some(tail_of(line, 12));
        }
        return None;
    }
    if str_has_prefix(line, "Comment=") {
        proof {
            reveal_strlit("Comment=");
        }
        if st.comment.is_none() {
            st.comment = Some(tail_of(line, 8));
        }
        return None;
    }
    if str_has_prefix(line, "Exec=") {
        proof {
            reveal_strlit("Exec=");
        }
        if st.command_line.is_none() {
            st.command_line = Some(tail_of(line, 5));
        }
        return None;
    }
    if str_has_prefix(line, "Path=") {
        proof {
            reveal_strlit("Path=");
        }
        if st.path.is_none() {
            st.path = Some(tail_of(line, 5));
        }
        return None;
    }
    if str_has_prefix(line, "Terminal=") {
        proof {
            reveal_strlit("Terminal=");
        }
        if st.terminal.is_none() {
            let v = tail_of(line, 9);
            st.terminal = Some(str_eq(v.as_str(), "true"));
        }
        return None;
    }
    if str_has_prefix(line, "Categories=") {
        proof {
            reveal_strlit("Categories=");
        }
        if st.categories.is_none() {
            let v = tail_of(line, 11);
            st.categories = Some(split_list(v.as_str()));
        }
        return None;
    }
    if str_has_prefix(line, "Keywords=") {
        proof {
            reveal_strlit("Keywords=");
        }
        if st.keywords.is_none() {
            let v = tail_of(line, 9);
            st.keywords = Some(split_list(v.as_str()));
        }
        return None;
    }
    if str_has_prefix(line, "Hidden=") {
        proof {
            reveal_strlit("Hidden=");
        }
        let v = tail_of(line, 7);
        if str_eq(v.as_str(), "true") {
            return Some(DesktopEntryErr::Hidden);
        } else {
            return None;
        }
    }
    if str_has_prefix(line, "OnlyShowIn=") {
        proof {
            reveal_strlit("OnlyShowIn=");
        }
        let v = tail_of(line, 11);
        let ids = split_list(v.as_str());
        if list_contains(&ids, "Sway") {
            return None;
        } else {
            return Some(DesktopEntryErr::OnlyShowIn);
        }
    }
    if str_has_prefix(line, "NotShowIn=") {
        proof {
            reveal_strlit("NotShowIn=");
        }
        let v = tail_of(line, 10);
        let ids = split_list(v.as_str());
        if list_contains(&ids, "Sway") {
            return Some(DesktopEntryErr::NotShowIn);
        } else {
            return None;
        }
    }
    None
}

impl DesktopEntry {
    /// Parses the full text of one descriptor file into a validated record,
    /// or rejects it with the first applicable reason.
    pub fn new(text: &str) -> (r: Result<DesktopEntry, DesktopEntryErr>)
        ensures
            result_model(r) == parse_spec(text@),
    {
        let lines = lines_of(text);
        let mut st = ScanState {
            in_de: false,
            name: None,
            icon: None,
            generic_name: None,
            comment: None,
            command_line: None,
            path: None,
            terminal: None,
            categories: None,
            keywords: None,
        };
        let n = lines.len();
        let mut i: usize = 0;
        proof {
            assert(lines.deep_view().take(0) =~= Seq::<Seq<char>>::empty());
            assert(st@ == scan_init());
        }
        while i < n
            invariant
                n == lines@.len(),
                lines.deep_view() == split_lines(text@),
                0 <= i <= n,
                scan_lines(lines.deep_view().take(i as int)) == Ok::<ScanModel, DesktopEntryErr>(
                    st@,
                ),
            decreases n - i,
        {
            let line = lines[i];
            proof {
                lemma_scan_take_step(lines.deep_view(), i as int);
                assert(lines.deep_view()[i as int] == line@);
            }
            if let Some(e) = scan_one(&mut st, line) {
                proof {
                    lemma_scan_err_persists(lines.deep_view(), i as int + 1);
                }
                return Err(e);
            }
            i += 1;
        }
        proof {
            assert(lines.deep_view().take(n as int) =~= lines.deep_view());
        }
        let ghost m = st@;
        let ScanState {
            in_de: _,
            name,
            icon,
            generic_name,
            comment,
            command_line,
            path,
            terminal,
            categories,
            keywords,
        } = st;
        let name = match name {
            Some(v) => v,
            None => {
                return Err(DesktopEntryErr::MissingName);
            },
        };
        let command_line = match command_line {
            Some(v) => v,
            None => {
                return Err(DesktopEntryErr::MissingExec);
            },
        };
        let terminal_v = match terminal {
            Some(b) => b,
            None => false,
        };
        let categories_v = match categories {
            Some(c) => c,
            None => Vec::new(),
        };
        let keywords_v = match keywords {
            Some(k) => k,
            None => Vec::new(),
        };
        let entry = DesktopEntry {
            name,
            icon,
            generic_name,
            comment,
            command_line,
            path,
            terminal: terminal_v,
            categories: categories_v,
            keywords: keywords_v,
        };
        proof {
            assert(entry@ =~= entry_of_scan(m));
        }
        Ok(entry)
    }
}

/// A line that is not a section header.
pub open spec fn plain_line(l: Seq<char>) -> bool {
    l.len() == 0 || l[0] != '['
}

/// A line that rejects the whole file when scanned inside the Desktop
/// Entry section.
pub open spec fn rejecting_line(l: Seq<char>) -> bool {
    ||| (starts_with(l, "Type="@) && l.skip("Type="@.len() as int) != "Application"@)
    ||| (starts_with(l, "Hidden="@) && l.skip("Hidden="@.len() as int) == "true"@)
    ||| (starts_with(l, "OnlyShowIn="@) && !split_semi(
        l.skip("OnlyShowIn="@.len() as int),
    ).contains(environment_id()))
    ||| (starts_with(l, "NotShowIn="@) && split_semi(l.skip("NotShowIn="@.len() as int)).contains(
        environment_id(),
    ))
}

/// Every field `a` has recorded is recorded unchanged in `b`.
pub open spec fn extends(a: ScanModel, b: ScanModel) -> bool {
    &&& (a.name is Some ==> b.name == a.name)
    &&& (a.icon is Some ==> b.icon == a.icon)
    &&& (a.generic_name is Some ==> b.generic_name == a.generic_name)
    &&& (a.comment is Some ==> b.comment == a.comment)
    &&& (a.command_line is Some ==> b.command_line == a.command_line)
    &&& (a.path is Some ==> b.path == a.path)
    &&& (a.terminal is Some ==> b.terminal == a.terminal)
    &&& (a.categories is Some ==> b.categories == a.categories)
    &&& (a.keywords is Some ==> b.keywords == a.keywords)
}

/// One scan step never overwrites a recorded field: a key that repeats
/// later in the file is ignored.
pub proof fn lemma_scan_step_extends(st: ScanModel, l: Seq<char>)
    ensures
        scan_step(st, l) matches Ok(st2) ==> extends(st, st2),
{
}

/// First occurrence wins, globally: whatever the scan has recorded after a
/// prefix of the lines, the rest of a successful scan leaves unchanged.
pub proof fn lemma_scan_extends(lines: Seq<Seq<char>>, i: int, j: int)
    requires
        0 <= i <= j <= lines.len(),
        scan_lines(lines.take(j)) is Ok,
    ensures
        scan_lines(lines.take(i)) is Ok,
        extends(scan_lines(lines.take(i))->Ok_0, scan_lines(lines.take(j))->Ok_0),
    decreases j - i,
{
    if i < j {
        lemma_scan_take_step(lines, j - 1);
        assert(scan_lines(lines.take(j - 1)) is Ok);
        lemma_scan_extends(lines, i, j - 1);
        lemma_scan_step_extends(scan_lines(lines.take(j - 1))->Ok_0, lines[j - 1]);
    }
}

/// The value of the first `Name=` line among lines `i` to `j`, if any.
pub open spec fn first_name(lines: Seq<Seq<char>>, i: int, j: int) -> Option<Seq<char>>
    decreases j - i,
{
    if i < 0 || i >= j {
        None
    } else if starts_with(lines[i], "Name="@) {
        Some(lines[i].skip("Name="@.len() as int))
    } else {
        first_name(lines, i + 1, j)
    }
}

/// The value of the first `Exec=` line among lines `i` to `j`, if any.
pub open spec fn first_exec(lines: Seq<Seq<char>>, i: int, j: int) -> Option<Seq<char>>
    decreases j - i,
{
    if i < 0 || i >= j {
        None
    } else if starts_with(lines[i], "Exec="@) {
        Some(lines[i].skip("Exec="@.len() as int))
    } else {
        first_exec(lines, i + 1, j)
    }
}

/// Over a run of plain, non-rejecting lines the scan stays successful and
/// inside the section, keeps every recorded field, and records the name and
/// command line of exactly the first `Name=` and `Exec=` lines of the run.
pub proof fn lemma_scan_tracks(lines: Seq<Seq<char>>, i: int, j: int)
    requires
        0 <= i <= j <= lines.len(),
        scan_lines(lines.take(i)) matches Ok(st) && st.in_de,
        forall|k: int|
            i <= k < j ==> plain_line(#[trigger] lines[k]) && !rejecting_line(lines[k]),
    ensures
        scan_lines(lines.take(j)) is Ok,
        (scan_lines(lines.take(j))->Ok_0).in_de,
        extends(scan_lines(lines.take(i))->Ok_0, scan_lines(lines.take(j))->Ok_0),
        (scan_lines(lines.take(i))->Ok_0).name is None ==> (scan_lines(lines.take(j))->Ok_0).name
            == first_name(lines, i, j),
        (scan_lines(lines.take(i))->Ok_0).command_line is None ==> (scan_lines(
            lines.take(j),
        )->Ok_0).command_line == first_exec(lines, i, j),
    decreases j - i,
{
    let st = scan_lines(lines.take(i))->Ok_0;
    if i < j {
        lemma_scan_take_step(lines, i);
        let l = lines[i];
        let st2 = scan_step(st, l)->Ok_0;
        assert(scan_step(st, l) is Ok && st2.in_de) by {
            assert(plain_line(l) && !rejecting_line(l));
        }
        assert(scan_lines(lines.take(i + 1)) == Ok::<ScanModel, DesktopEntryErr>(st2));
        lemma_scan_tracks(lines, i + 1, j);
        lemma_scan_step_extends(st, l);
        let fin = scan_lines(lines.take(j))->Ok_0;
        if st.name is None {
            if starts_with(l, "Name="@) {
                lemma_name_line_distinct(l);
                assert(st2.name == Some(l.skip("Name="@.len() as int)));
                assert(fin.name == st2.name);
            } else {
                assert(st2.name == st.name);
            }
        }
        if st.command_line is None {
            if starts_with(l, "Exec="@) {
                lemma_exec_line_distinct(l);
                assert(st2.command_line == Some(l.skip("Exec="@.len() as int)));
                assert(fin.command_line == st2.command_line);
            } else {
                assert(st2.command_line == st.command_line);
            }
        }
    }
}

/// A `Name=` line carries no key prefix the scan checks earlier.
proof fn lemma_name_line_distinct(l: Seq<char>)
    requires
        starts_with(l, "Name="@),
    ensures
        !starts_with(l, "Type="@),
{
    reveal_strlit("Name=");
    reveal_strlit("Type=");
    lemma_prefix_first_char(l, "Name="@);
    if starts_with(l, "Type="@) {
        lemma_prefix_first_char(l, "Type="@);
    }
}

/// An `Exec=` line carries no key prefix the scan checks earlier.
proof fn lemma_exec_line_distinct(l: Seq<char>)
    requires
        starts_with(l, "Exec="@),
    ensures
        !starts_with(l, "Type="@),
        !starts_with(l, "Name="@),
        !starts_with(l, "Icon="@),
        !starts_with(l, "GenericName="@),
        !starts_with(l, "Comment="@),
    {
    reveal_strlit("Exec=");
    reveal_strlit("Type=");
    reveal_strlit("Name=");
    reveal_strlit("Icon=");
    reveal_strlit("GenericName=");
    reveal_strlit("Comment=");
    lemma_prefix_first_char(l, "Exec="@);
    if starts_with(l, "Type="@) {
        lemma_prefix_first_char(l, "Type="@);
    }
    if starts_with(l, "Name="@) {
        lemma_prefix_first_char(l, "Name="@);
    }
    if starts_with(l, "Icon="@) {
        lemma_prefix_first_char(l, "Icon="@);
    }
    if starts_with(l, "GenericName="@) {
        lemma_prefix_first_char(l, "GenericName="@);
    }
    if starts_with(l, "Comment="@) {
        lemma_prefix_first_char(l, "Comment="@);
    }
}

/// A section header line that opens the Desktop Entry section.
pub open spec fn is_de_header(l: Seq<char>) -> bool {
    l.len() >= 3 && l[0] == '[' && l.subrange(1, l.len() - 1) == "Desktop Entry"@
}

/// Well-formed descriptor text - a Desktop Entry header followed by plain,
/// non-rejecting lines among which `Name=` and `Exec=` occur - parses to a
/// record whose name and command line are the values of the first such
/// lines; later repetitions of a key are ignored.
pub proof fn lemma_parse_well_formed(text: Seq<char>)
    requires
        split_lines(text).len() > 0,
        is_de_header(split_lines(text)[0]),
        forall|k: int|
            1 <= k < split_lines(text).len() ==> plain_line(#[trigger] split_lines(text)[k])
                && !rejecting_line(split_lines(text)[k]),
        first_name(split_lines(text), 1, split_lines(text).len() as int) is Some,
        first_exec(split_lines(text), 1, split_lines(text).len() as int) is Some,
    ensures
        parse_spec(text) matches Ok(e) && e.name == (first_name(
            split_lines(text),
            1,
            split_lines(text).len() as int,
        ))->Some_0 && e.command_line == (first_exec(
            split_lines(text),
            1,
            split_lines(text).len() as int,
        ))->Some_0,
{
    let lines = split_lines(text);
    let n = lines.len() as int;
    assert(lines.take(0) =~= Seq::<Seq<char>>::empty());
    lemma_scan_take_step(lines, 0);
    let st1 = scan_step(scan_init(), lines[0])->Ok_0;
    assert(scan_lines(lines.take(1)) == Ok::<ScanModel, DesktopEntryErr>(st1) && st1.in_de
        && st1.name is None && st1.command_line is None);
    lemma_scan_tracks(lines, 1, n);
    assert(lines.take(n) =~= lines);
}

/// The first `Name=` line determines `first_name`: lines before it that do
/// not carry the prefix contribute nothing.
proof fn lemma_first_name_at(lines: Seq<Seq<char>>, i: int, a: int, j: int)
    requires
        0 <= i <= a < j <= lines.len(),
        starts_with(lines[a], "Name="@),
        forall|k: int| i <= k < a ==> !starts_with(#[trigger] lines[k], "Name="@),
    ensures
        first_name(lines, i, j) == Some(lines[a].skip("Name="@.len() as int)),
    decreases a - i,
{
    if i < a {
        lemma_first_name_at(lines, i + 1, a, j);
    }
}

/// A key that repeats is ignored: well-formed text holding `Name=` twice
/// parses to the first line's value, never the later one.
pub proof fn lemma_repeated_name_ignored(text: Seq<char>, a: int, b: int)
    requires
        split_lines(text).len() > 0,
        is_de_header(split_lines(text)[0]),
        forall|k: int|
            1 <= k < split_lines(text).len() ==> plain_line(#[trigger] split_lines(text)[k])
                && !rejecting_line(split_lines(text)[k]),
        1 <= a < b < split_lines(text).len(),
        starts_with(split_lines(text)[a], "Name="@),
        starts_with(split_lines(text)[b], "Name="@),
        forall|k: int| 1 <= k < a ==> !starts_with(#[trigger] split_lines(text)[k], "Name="@),
        first_exec(split_lines(text), 1, split_lines(text).len() as int) is Some,
    ensures
        parse_spec(text) matches Ok(e) && e.name == split_lines(text)[a].skip(
            "Name="@.len() as int,
        ),
{
    let lines = split_lines(text);
    lemma_first_name_at(lines, 1, a, lines.len() as int);
    lemma_parse_well_formed(text);
}

/// A `Hidden=true` line reached inside the Desktop Entry section rejects
/// the file with `Hidden`, whatever valid fields stand anywhere else.
pub proof fn lemma_hidden_rejects(text: Seq<char>, i: int)
    requires
        0 <= i < split_lines(text).len(),
        scan_lines(split_lines(text).take(i)) matches Ok(st) && st.in_de,
        starts_with(split_lines(text)[i], "Hidden="@),
        split_lines(text)[i].skip("Hidden="@.len() as int) == "true"@,
    ensures
        parse_spec(text) == Err::<EntryModel, DesktopEntryErr>(DesktopEntryErr::Hidden),
{
    let lines = split_lines(text);
    let l = lines[i];
    lemma_key_prefixes_distinct(l);
    assert(scan_step(scan_lines(lines.take(i))->Ok_0, l) == Err::<ScanModel, DesktopEntryErr>(
        DesktopEntryErr::Hidden,
    ));
    lemma_scan_take_step(lines, i);
    lemma_scan_err_persists(lines, i + 1);
}

/// An `OnlyShowIn=` line whose list lacks the running environment's
/// identifier rejects the file with `OnlyShowIn`.
pub proof fn lemma_only_show_in_rejects(text: Seq<char>, i: int)
    requires
        0 <= i < split_lines(text).len(),
        scan_lines(split_lines(text).take(i)) matches Ok(st) && st.in_de,
        starts_with(split_lines(text)[i], "OnlyShowIn="@),
        !split_semi(split_lines(text)[i].skip("OnlyShowIn="@.len() as int)).contains(
            environment_id(),
        ),
    ensures
        parse_spec(text) == Err::<EntryModel, DesktopEntryErr>(DesktopEntryErr::OnlyShowIn),
{
    let lines = split_lines(text);
    let l = lines[i];
    lemma_key_prefixes_distinct(l);
    assert(scan_step(scan_lines(lines.take(i))->Ok_0, l) == Err::<ScanModel, DesktopEntryErr>(
        DesktopEntryErr::OnlyShowIn,
    ));
    lemma_scan_take_step(lines, i);
    lemma_scan_err_persists(lines, i + 1);
}

/// An `OnlyShowIn=` line whose list holds the running environment's
/// identifier does not reject on that basis: the step leaves the state as
/// it stands.
pub proof fn lemma_only_show_in_accepts(st: ScanModel, l: Seq<char>)
    requires
        st.in_de,
        starts_with(l, "OnlyShowIn="@),
        split_semi(l.skip("OnlyShowIn="@.len() as int)).contains(environment_id()),
    ensures
        scan_step(st, l) == Ok::<ScanModel, DesktopEntryErr>(st),
{
    lemma_key_prefixes_distinct(l);
}

/// A scan that records no name fails with `MissingName`, whether or not a
/// command line was recorded: the name is checked first.
pub proof fn lemma_missing_name(text: Seq<char>)
    requires
        scan_lines(split_lines(text)) matches Ok(st) && st.name is None,
    ensures
        parse_spec(text) == Err::<EntryModel, DesktopEntryErr>(DesktopEntryErr::MissingName),
{
}

/// A scan that records a name but no command line fails with `MissingExec`.
pub proof fn lemma_missing_exec(text: Seq<char>)
    requires
        scan_lines(split_lines(text)) matches Ok(st) && st.name is Some && st.command_line is None,
    ensures
        parse_spec(text) == Err::<EntryModel, DesktopEntryErr>(DesktopEntryErr::MissingExec),
{
}

/// A non-empty prefix fixes the first character.
proof fn lemma_prefix_first_char(l: Seq<char>, p: Seq<char>)
    requires
        starts_with(l, p),
        p.len() > 0,
    ensures
        l.len() > 0 && l[0] == p[0],
{
    assert(l.subrange(0, p.len() as int)[0] == l[0]);
}

/// The recognized key prefixes begin with distinct enough characters that
/// a line can carry at most the one the scan classifies it by.
proof fn lemma_key_prefixes_distinct(l: Seq<char>)
    ensures
        starts_with(l, "Hidden="@) ==> !plain_header(l) && !starts_with(l, "Type="@)
            && !starts_with(l, "Name="@) && !starts_with(l, "Icon="@) && !starts_with(
            l,
            "GenericName="@,
        ) && !starts_with(l, "Comment="@) && !starts_with(l, "Exec="@) && !starts_with(
            l,
            "Path="@,
        ) && !starts_with(l, "Terminal="@) && !starts_with(l, "Categories="@) && !starts_with(
            l,
            "Keywords="@,
        ),
        starts_with(l, "OnlyShowIn="@) ==> !plain_header(l) && !starts_with(l, "Type="@)
            && !starts_with(l, "Name="@) && !starts_with(l, "Icon="@) && !starts_with(
            l,
            "GenericName="@,
        ) && !starts_with(l, "Comment="@) && !starts_with(l, "Exec="@) && !starts_with(
            l,
            "Path="@,
        ) && !starts_with(l, "Terminal="@) && !starts_with(l, "Categories="@) && !starts_with(
            l,
            "Keywords="@,
        ) && !starts_with(l, "Hidden="@),
{
    reveal_strlit("Hidden=");
    reveal_strlit("OnlyShowIn=");
    reveal_strlit("Type=");
    reveal_strlit("Name=");
    reveal_strlit("Icon=");
    reveal_strlit("GenericName=");
    reveal_strlit("Comment=");
    reveal_strlit("Exec=");
    reveal_strlit("Path=");
    reveal_strlit("Terminal=");
    reveal_strlit("Categories=");
    reveal_strlit("Keywords=");
    if starts_with(l, "Hidden="@) {
        lemma_prefix_first_char(l, "Hidden="@);
        lemma_refute_prefixes(l, 'H');
    }
    if starts_with(l, "OnlyShowIn="@) {
        lemma_prefix_first_char(l, "OnlyShowIn="@);
        lemma_refute_prefixes(l, 'O');
    }
}

/// A line is a header exactly when it begins with `'['`.
pub open spec fn plain_header(l: Seq<char>) -> bool {
    l.len() > 0 && l[0] == '['
}

/// A line whose first character is `c` carries none of the key prefixes
/// that begin otherwise.
proof fn lemma_refute_prefixes(l: Seq<char>, c: char)
    requires
        l.len() > 0,
        l[0] == c,
        c == 'H' || c == 'O',
    ensures
        !plain_header(l),
        !starts_with(l, "Type="@),
        !starts_with(l, "Name="@),
        !starts_with(l, "Icon="@),
        !starts_with(l, "GenericName="@),
        !starts_with(l, "Comment="@),
        !starts_with(l, "Exec="@),
        !starts_with(l, "Path="@),
        !starts_with(l, "Terminal="@),
        !starts_with(l, "Categories="@),
        !starts_with(l, "Keywords="@),
        c == 'O' ==> !starts_with(l, "Hidden="@),
{
    reveal_strlit("Type=");
    reveal_strlit("Name=");
    reveal_strlit("Icon=");
    reveal_strlit("GenericName=");
    reveal_strlit("Comment=");
    reveal_strlit("Exec=");
    reveal_strlit("Path=");
    reveal_strlit("Terminal=");
    reveal_strlit("Categories=");
    reveal_strlit("Keywords=");
    reveal_strlit("Hidden=");
    if starts_with(l, "Type="@) {
        lemma_prefix_first_char(l, "Type="@);
    }
    if starts_with(l, "Name="@) {
        lemma_prefix_first_char(l, "Name="@);
    }
    if starts_with(l, "Icon="@) {
        lemma_prefix_first_char(l, "Icon="@);
    }
    if starts_with(l, "GenericName="@) {
        lemma_prefix_first_char(l, "GenericName="@);
    }
    if starts_with(l, "Comment="@) {
        lemma_prefix_first_char(l, "Comment="@);
    }
    if starts_with(l, "Exec="@) {
        lemma_prefix_first_char(l, "Exec="@);
    }
    if starts_with(l, "Path="@) {
        lemma_prefix_first_char(l, "Path="@);
    }
    if starts_with(l, "Terminal="@) {
        lemma_prefix_first_char(l, "Terminal="@);
    }
    if starts_with(l, "Categories="@) {
        lemma_prefix_first_char(l, "Categories="@);
    }
    if starts_with(l, "Keywords="@) {
        lemma_prefix_first_char(l, "Keywords="@);
    }
    if c == 'O' && starts_with(l, "Hidden="@) {
        lemma_prefix_first_char(l, "Hidden="@);
    }
}

/// The placeholder codes a command line may carry after `'%'`.
pub open spec fn is_placeholder_code(c: char) -> bool {
    c == 'f' || c == 'F' || c == 'u' || c == 'U' || c == 'i' || c == 'c' || c == 'k'
}

/// What one placeholder token stands for: the icon for `%i`, the display
/// name for `%c`, nothing for the file, URL and location codes.
pub open spec fn placeholder_of(c: char, icon: Seq<char>, name: Seq<char>) -> Seq<char> {
    if c == 'i' {
        icon
    } else if c == 'c' {
        name
    } else {
        Seq::empty()
    }
}

/// The command line after one left-to-right pass of placeholder
/// substitution: each `%`-code token is replaced by what it stands for;
/// every other character, a lone trailing `'%'` included, is kept.
pub open spec fn expand_spec(cmd: Seq<char>, icon: Seq<char>, name: Seq<char>) -> Seq<char>
    decreases cmd.len(),
{
    if cmd.len() == 0 {
        Seq::empty()
    } else if cmd.len() >= 2 && cmd[0] == '%' && is_placeholder_code(cmd[1]) {
        placeholder_of(cmd[1], icon, name) + expand_spec(cmd.skip(2), icon, name)
    } else {
        seq![cmd[0]] + expand_spec(cmd.skip(1), icon, name)
    }
}

impl DesktopEntry {
    /// The command line ready for a process spawner: placeholder tokens
    /// substituted (`%i` by the icon, `%c` by the name) or stripped.
    pub fn launch_command(&self) -> (r: String)
        ensures
            r@ == expand_spec(self.command_line@, seq_or_empty(self@.icon), self.name@),
    {
        let ghost icon_m = seq_or_empty(self@.icon);
        let ghost name_m = self.name@;
        let cmd = self.command_line.as_str();
        let n = cmd.unicode_len();
        let mut out = String::new();
        let mut i: usize = 0;
        proof {
            assert(cmd@.skip(0) =~= cmd@);
            assert(out@ + expand_spec(cmd@, icon_m, name_m) =~= expand_spec(cmd@, icon_m, name_m));
        }
        while i < n
            invariant
                cmd@ == self.command_line@,
                n == cmd@.len(),
                0 <= i <= n,
                icon_m == seq_or_empty(self@.icon),
                name_m == self.name@,
                expand_spec(cmd@, icon_m, name_m) == out@ + expand_spec(
                    cmd@.skip(i as int),
                    icon_m,
                    name_m,
                ),
            decreases n - i,
        {
            let ghost rest = cmd@.skip(i as int);
            proof {
                assert(rest[0] == cmd@[i as int]);
            }
            let c = cmd.get_char(i);
            let mut plain = true;
            if c == '%' && i + 1 < n {
                let c2 = cmd.get_char(i + 1);
                proof {
                    assert(rest[1] == cmd@[i as int + 1]);
                    assert(rest.skip(2) =~= cmd@.skip(i as int + 2));
                }
                if c2 == 'f' || c2 == 'F' || c2 == 'u' || c2 == 'U' || c2 == 'k' {
                    plain = false;
                    proof {
                        assert(Seq::<char>::empty() + expand_spec(rest.skip(2), icon_m, name_m)
                            =~= expand_spec(rest.skip(2), icon_m, name_m));
                    }
                    i += 2;
                } else if c2 == 'i' {
                    plain = false;
                    let ghost out0 = out@;
                    match &self.icon {
                        Some(s) => {
                            out.append(s.as_str());
                        },
                        None => {},
                    }
                    proof {
                        assert(out@ =~= out0 + icon_m);
                        assert((out0 + icon_m) + expand_spec(rest.skip(2), icon_m, name_m) =~= out0
                            + (icon_m + expand_spec(rest.skip(2), icon_m, name_m)));
                    }
                    i += 2;
                } else if c2 == 'c' {
                    plain = false;
                    let ghost out0 = out@;
                    out.append(self.name.as_str());
                    proof {
                        assert((out0 + name_m) + expand_spec(rest.skip(2), icon_m, name_m) =~= out0
                            + (name_m + expand_spec(rest.skip(2), icon_m, name_m)));
                    }
                    i += 2;
                }
            }
            if plain {
                let ghost out0 = out@;
                let piece = cmd.substring_char(i, i + 1);
                out.append(piece);
                proof {
                    assert(rest.skip(1) =~= cmd@.skip(i as int + 1));
                    assert(piece@ =~= seq![cmd@[i as int]]);
                    assert((out0 + piece@) + expand_spec(rest.skip(1), icon_m, name_m) =~= out0 + (
                    piece@ + expand_spec(rest.skip(1), icon_m, name_m)));
                }
                i += 1;
            }
        }
        proof {
            assert(cmd@.skip(n as int) =~= Seq::<char>::empty());
            assert(out@ + expand_spec(Seq::<char>::empty(), icon_m, name_m) =~= out@);
        }
        out
    }
}

} // verus!
