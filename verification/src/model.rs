//! The records that the clipboard database holds, and their mathematical views.

use vstd::prelude::*;

verus! {

/// The view of an optional string.
pub open spec fn ov(o: Option<String>) -> Option<Seq<char>> {
    match o {
        Some(s) => Some(s@),
        None => None,
    }
}

/// A copy of an optional string, with the same view.
pub fn copy_opt(o: &Option<String>) -> (r: Option<String>)
    ensures
        ov(r) == ov(*o),
{
    match o {
        Some(s) => Some(s.clone()),
        None => None,
    }
}

/// An optional string slice made into an optional owned string.
pub fn own_opt(o: Option<&str>) -> (r: Option<String>)
    ensures
        ov(r) == match o {
            Some(s) => Some(s@),
            None => None::<Seq<char>>,
        },
{
    match o {
        Some(s) => Some(s.to_owned()),
        None => None,
    }
}

/// The view of an optional string slice.
pub open spec fn osv(o: Option<&str>) -> Option<Seq<char>> {
    match o {
        Some(s) => Some(s@),
        None => None,
    }
}

/// One clipboard history entry.
#[derive(Debug, Clone)]
pub struct ClipboardItem {
    pub id: i64,
    pub content_type: String,
    pub content: String,
    pub content_hash: String,
    pub blob_path: Option<String>,
    pub tag: Option<String>,
    pub created_at: i64,
    pub updated_at: i64,
    pub is_pinned: bool,
    pub use_count: i64,
    pub last_used_at: Option<i64>,
    pub source_app: Option<String>,
    pub source_app_name: Option<String>,
}

/// The mathematical value of a [`ClipboardItem`].
pub struct ItemV {
    pub id: i64,
    pub content_type: Seq<char>,
    pub content: Seq<char>,
    pub content_hash: Seq<char>,
    pub blob_path: Option<Seq<char>>,
    pub tag: Option<Seq<char>>,
    pub created_at: i64,
    pub updated_at: i64,
    pub is_pinned: bool,
    pub use_count: i64,
    pub last_used_at: Option<i64>,
    pub source_app: Option<Seq<char>>,
    pub source_app_name: Option<Seq<char>>,
}

impl View for ClipboardItem {
    type V = ItemV;

    open spec fn view(&self) -> ItemV {
        ItemV {
            id: self.id,
            content_type: self.content_type@,
            content: self.content@,
            content_hash: self.content_hash@,
            blob_path: ov(self.blob_path),
            tag: ov(self.tag),
            created_at: self.created_at,
            updated_at: self.updated_at,
            is_pinned: self.is_pinned,
            use_count: self.use_count,
            last_used_at: self.last_used_at,
            source_app: ov(self.source_app),
            source_app_name: ov(self.source_app_name),
        }
    }
}

impl ClipboardItem {
    /// A copy with the same value.
    pub fn duplicate(&self) -> (r: ClipboardItem)
        ensures
            r@ == self@,
    {
        ClipboardItem {
            id: self.id,
            content_type: self.content_type.clone(),
            content: self.content.clone(),
            content_hash: self.content_hash.clone(),
            blob_path: copy_opt(&self.blob_path),
            tag: copy_opt(&self.tag),
            created_at: self.created_at,
            updated_at: self.updated_at,
            is_pinned: self.is_pinned,
            use_count: self.use_count,
            last_used_at: self.last_used_at,
            source_app: copy_opt(&self.source_app),
            source_app_name: copy_opt(&self.source_app_name),
        }
    }
}

/// A tagging rule: a regular expression (or `builtin:` detector) and its tag.
#[derive(Debug, Clone)]
pub struct TagRule {
    pub id: i64,
    pub name: String,
    pub pattern: String,
    pub color: String,
    pub priority: i64,
    pub expire_days: i64,
}

pub struct RuleV {
    pub id: i64,
    pub name: Seq<char>,
    pub pattern: Seq<char>,
    pub color: Seq<char>,
    pub priority: i64,
    pub expire_days: i64,
}

impl View for TagRule {
    type V = RuleV;

    open spec fn view(&self) -> RuleV {
        RuleV {
            id: self.id,
            name: self.name@,
            pattern: self.pattern@,
            color: self.color@,
            priority: self.priority,
            expire_days: self.expire_days,
        }
    }
}

impl TagRule {
    pub fn duplicate(&self) -> (r: TagRule)
        ensures
            r@ == self@,
    {
        TagRule {
            id: self.id,
            name: self.name.clone(),
            pattern: self.pattern.clone(),
            color: self.color.clone(),
            priority: self.priority,
            expire_days: self.expire_days,
        }
    }
}

/// A board (a named collection of items) as the user sees it.
#[derive(Debug, Clone)]
pub struct Board {
    pub id: i64,
    pub name: String,
    pub color: String,
    pub sort_order: i64,
    pub is_builtin: bool,
}

/// The value of a [`Board`]: id, name, color, sort order, built-in flag.
pub type BoardShown = (i64, Seq<char>, Seq<char>, i64, bool);

impl View for Board {
    type V = BoardShown;

    open spec fn view(&self) -> BoardShown {
        (self.id, self.name@, self.color@, self.sort_order, self.is_builtin)
    }
}

/// What the user sees of a stored board.
pub open spec fn shown(b: BoardV) -> BoardShown {
    (b.id, b.name, b.color, b.sort_order, b.is_builtin)
}

/// A stored board: a [`Board`] and the time it was made.
#[derive(Debug, Clone)]
pub struct BoardRow {
    pub id: i64,
    pub name: String,
    pub color: String,
    pub sort_order: i64,
    pub is_builtin: bool,
    pub created_at: i64,
}

pub struct BoardV {
    pub id: i64,
    pub name: Seq<char>,
    pub color: Seq<char>,
    pub sort_order: i64,
    pub is_builtin: bool,
    pub created_at: i64,
}

impl View for BoardRow {
    type V = BoardV;

    open spec fn view(&self) -> BoardV {
        BoardV {
            id: self.id,
            name: self.name@,
            color: self.color@,
            sort_order: self.sort_order,
            is_builtin: self.is_builtin,
            created_at: self.created_at,
        }
    }
}

impl BoardRow {
    pub fn duplicate(&self) -> (r: BoardRow)
        ensures
            r@ == self@,
    {
        BoardRow {
            id: self.id,
            name: self.name.clone(),
            color: self.color.clone(),
            sort_order: self.sort_order,
            is_builtin: self.is_builtin,
            created_at: self.created_at,
        }
    }

    /// The board as the user sees it.
    pub fn to_board(&self) -> (r: Board)
        ensures
            r@ == shown(self@),
    {
        Board {
            id: self.id,
            name: self.name.clone(),
            color: self.color.clone(),
            sort_order: self.sort_order,
            is_builtin: self.is_builtin,
        }
    }
}

/// That an item belongs to a board.
#[derive(Debug, Clone, Copy, PartialEq, Eq)]
pub struct Membership {
    pub board_id: i64,
    pub item_id: i64,
    pub added_at: i64,
}

/// One configuration entry.
#[derive(Debug, Clone)]
pub struct ConfigEntry {
    pub key: String,
    pub value: String,
}

/// An item as it is written to and read from an export file.
#[derive(Debug, Clone)]
pub struct ExportItem {
    pub content_type: String,
    pub content: String,
    pub content_hash: String,
    pub tag: Option<String>,
    pub created_at: i64,
    pub updated_at: i64,
    pub is_pinned: bool,
    pub use_count: i64,
    pub last_used_at: Option<i64>,
    pub source_app: Option<String>,
    pub source_app_name: Option<String>,
    pub image_base64: Option<String>,
    pub boards: Vec<String>,
    pub blob_path: Option<String>,
}

/// The value of an [`ExportItem`].
pub struct ExportItemV {
    pub content_type: Seq<char>,
    pub content: Seq<char>,
    pub content_hash: Seq<char>,
    pub tag: Option<Seq<char>>,
    pub created_at: i64,
    pub updated_at: i64,
    pub is_pinned: bool,
    pub use_count: i64,
    pub last_used_at: Option<i64>,
    pub source_app: Option<Seq<char>>,
    pub source_app_name: Option<Seq<char>>,
    pub image_base64: Option<Seq<char>>,
    pub boards: Seq<Seq<char>>,
    pub blob_path: Option<Seq<char>>,
}

impl View for ExportItem {
    type V = ExportItemV;

    open spec fn view(&self) -> ExportItemV {
        ExportItemV {
            content_type: self.content_type@,
            content: self.content@,
            content_hash: self.content_hash@,
            tag: ov(self.tag),
            created_at: self.created_at,
            updated_at: self.updated_at,
            is_pinned: self.is_pinned,
            use_count: self.use_count,
            last_used_at: self.last_used_at,
            source_app: ov(self.source_app),
            source_app_name: ov(self.source_app_name),
            image_base64: ov(self.image_base64),
            boards: self.boards@.map_values(|b: String| b@),
            blob_path: ov(self.blob_path),
        }
    }
}

/// A tag rule in an export file.
#[derive(Debug, Clone)]
pub struct ExportTagRule {
    pub name: String,
    pub pattern: String,
    pub color: String,
    pub priority: i64,
    pub expire_days: i64,
}

/// The value of an [`ExportTagRule`]: name, pattern, color, priority, expiry.
pub type ExportTagRuleV = (Seq<char>, Seq<char>, Seq<char>, i64, i64);

impl View for ExportTagRule {
    type V = ExportTagRuleV;

    open spec fn view(&self) -> ExportTagRuleV {
        (self.name@, self.pattern@, self.color@, self.priority, self.expire_days)
    }
}

/// A board in an export file.
#[derive(Debug, Clone)]
pub struct ExportBoard {
    pub name: String,
    pub color: String,
    pub sort_order: i64,
    pub is_builtin: bool,
}

/// The value of an [`ExportBoard`]: name, color, sort order, built-in flag.
pub type ExportBoardV = (Seq<char>, Seq<char>, i64, bool);

impl View for ExportBoard {
    type V = ExportBoardV;

    open spec fn view(&self) -> ExportBoardV {
        (self.name@, self.color@, self.sort_order, self.is_builtin)
    }
}

/// The whole content of an export file.
#[derive(Debug, Clone)]
pub struct ExportData {
    pub version: u32,
    pub exported_at: i64,
    pub items: Vec<ExportItem>,
    pub tag_rules: Vec<ExportTagRule>,
    pub boards: Vec<ExportBoard>,
}

/// A running application that the user may exclude from recording.
#[derive(Debug, Clone)]
pub struct RunningApp {
    pub bundle_id: String,
    pub name: String,
}

} // verus!
