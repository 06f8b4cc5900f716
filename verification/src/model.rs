//! The artifacts: designs, documents, and mailings, with their theme.

use vstd::prelude::*;

verus! {

// -- Copies -----------------------------------------------------------------

/// A value that can be copied whole.
pub trait Duplicate: Sized {
    /// A copy of the value.
    fn duplicate(&self) -> (r: Self)
        ensures
            r == *self,
    ;
}

impl Duplicate for String {
    fn duplicate(&self) -> (r: Self) {
        self.clone()
    }
}

/// A copy of an optional text.
pub fn duplicate_optional(text: &Option<String>) -> (r: Option<String>)
    ensures
        r == *text,
{
    match text {
        Some(value) => Some(value.clone()),
        None => None,
    }
}

/// A copy of a list, item by item.
pub fn duplicate_list<T: Duplicate>(list: &[T]) -> (r: Vec<T>)
    ensures
        r@ == list@,
{
    let mut r: Vec<T> = Vec::new();
    let mut i: usize = 0;
    while i < list.len()
        invariant
            i <= list@.len(),
            r@ == list@.take(i as int),
        decreases list@.len() - i,
    {
        r.push(list[i].duplicate());
        i += 1;
    }
    assert(list@.take(i as int) =~= list@);
    r
}

/// An optional text as an optional sequence.
pub open spec fn optional(text: Option<String>) -> Option<Seq<char>> {
    match text {
        Some(value) => Some(value@),
        None => None,
    }
}

/// An optional borrowed text as an optional sequence.
pub open spec fn optional_str(text: Option<&str>) -> Option<Seq<char>> {
    match text {
        Some(value) => Some(value@),
        None => None,
    }
}

/// An optional text, borrowed.
pub fn borrowed(text: &Option<String>) -> (r: Option<&str>)
    ensures
        optional_str(r) == optional(*text),
{
    match text {
        Some(value) => Some(value.as_str()),
        None => None,
    }
}

// -- The theme --------------------------------------------------------------

/// The palette and the fonts of an artifact.
#[derive(Debug, PartialEq, Eq)]
pub struct Theme {
    pub name: String,
    pub colors: Colors,
    pub fonts: Fonts,
}

/// The palette.
#[derive(Debug, PartialEq, Eq)]
pub struct Colors {
    pub background: String,
    pub text: String,
    pub accent: String,
    pub muted: String,
}

/// The font families.
#[derive(Debug, PartialEq, Eq)]
pub struct Fonts {
    pub heading: String,
    pub body: String,
    pub mono: String,
}

impl Duplicate for Theme {
    fn duplicate(&self) -> (r: Self) {
        Theme {
            name: self.name.clone(),
            colors: Colors {
                background: self.colors.background.clone(),
                text: self.colors.text.clone(),
                accent: self.colors.accent.clone(),
                muted: self.colors.muted.clone(),
            },
            fonts: Fonts {
                heading: self.fonts.heading.clone(),
                body: self.fonts.body.clone(),
                mono: self.fonts.mono.clone(),
            },
        }
    }
}

// -- Canvases ---------------------------------------------------------------

/// A canvas size in px.
#[derive(Clone, Copy, Debug, PartialEq, Eq, Structural)]
pub struct Viewport {
    pub width: u32,
    pub height: u32,
}

/// The paper of a document.
#[derive(Clone, Copy, Debug, PartialEq, Eq, Structural)]
pub enum Paper {
    A4,
    Letter,
}

impl Paper {
    /// The name in the document's JSON.
    pub open spec fn name(self) -> Seq<char> {
        match self {
            Paper::A4 => "a4"@,
            Paper::Letter => "letter"@,
        }
    }

    /// The name a reader knows it by.
    pub open spec fn title(self) -> Seq<char> {
        match self {
            Paper::A4 => "A4"@,
            Paper::Letter => "Letter"@,
        }
    }

    /// The canvas of one page.
    pub open spec fn canvas(self) -> Viewport {
        match self {
            Paper::A4 => Viewport { width: 794, height: 1123 },
            Paper::Letter => Viewport { width: 816, height: 1056 },
        }
    }

    /// The name in the document's JSON.
    pub fn as_str(self) -> (r: &'static str)
        ensures
            r@ == self.name(),
    {
        match self {
            Paper::A4 => "a4",
            Paper::Letter => "letter",
        }
    }

    /// The name a reader knows it by.
    pub fn label(self) -> (r: &'static str)
        ensures
            r@ == self.title(),
    {
        match self {
            Paper::A4 => "A4",
            Paper::Letter => "Letter",
        }
    }

    /// The paper with this name.
    pub fn from_name(name: &str) -> (r: Option<Paper>)
        ensures
            match r {
                Some(paper) => name@ == paper.name(),
                None => name@ != Paper::A4.name() && name@ != Paper::Letter.name(),
            },
    {
        if *name == *"a4" {
            Some(Paper::A4)
        } else if *name == *"letter" {
            Some(Paper::Letter)
        } else {
            None
        }
    }

    /// The canvas of one page.
    pub fn viewport(self) -> (r: Viewport)
        ensures
            r == self.canvas(),
    {
        match self {
            Paper::A4 => Viewport { width: 794, height: 1123 },
            Paper::Letter => Viewport { width: 816, height: 1056 },
        }
    }
}

/// The canvas length of an email.
#[derive(Clone, Copy, Debug, PartialEq, Eq, Structural)]
pub enum EmailFormat {
    Short,
    Standard,
    Long,
}

impl EmailFormat {
    /// The name in the mailing's JSON.
    pub open spec fn name(self) -> Seq<char> {
        match self {
            EmailFormat::Short => "short"@,
            EmailFormat::Standard => "standard"@,
            EmailFormat::Long => "long"@,
        }
    }

    /// The canvas of one email.
    pub open spec fn canvas(self) -> Viewport {
        match self {
            EmailFormat::Short => Viewport { width: 600, height: 800 },
            EmailFormat::Standard => Viewport { width: 600, height: 1200 },
            EmailFormat::Long => Viewport { width: 600, height: 1800 },
        }
    }

    /// The name in the mailing's JSON.
    pub fn as_str(self) -> (r: &'static str)
        ensures
            r@ == self.name(),
    {
        match self {
            EmailFormat::Short => "short",
            EmailFormat::Standard => "standard",
            EmailFormat::Long => "long",
        }
    }

    /// The format with this name.
    pub fn from_name(name: &str) -> (r: Option<EmailFormat>)
        ensures
            match r {
                Some(format) => name@ == format.name(),
                None => name@ != EmailFormat::Short.name() && name@ != EmailFormat::Standard.name()
                    && name@ != EmailFormat::Long.name(),
            },
    {
        if *name == *"short" {
            Some(EmailFormat::Short)
        } else if *name == *"standard" {
            Some(EmailFormat::Standard)
        } else if *name == *"long" {
            Some(EmailFormat::Long)
        } else {
            None
        }
    }

    /// The canvas of one email.
    pub fn viewport(self) -> (r: Viewport)
        ensures
            r == self.canvas(),
    {
        match self {
            EmailFormat::Short => Viewport { width: 600, height: 800 },
            EmailFormat::Standard => Viewport { width: 600, height: 1200 },
            EmailFormat::Long => Viewport { width: 600, height: 1800 },
        }
    }
}

// -- Units ------------------------------------------------------------------

/// The content of one unit: a screen, a page, or an email.
pub struct UnitModel {
    pub name: Seq<char>,
    pub html: Seq<char>,
    pub css: Option<Seq<char>>,
    pub notes: Option<Seq<char>>,
}

/// One page of a document.
#[derive(Debug)]
pub struct Page {
    pub html: String,
    pub css: Option<String>,
    pub notes: Option<String>,
}

/// One email of a mailing.
#[derive(Debug)]
pub struct Email {
    pub html: String,
    pub css: Option<String>,
    pub notes: Option<String>,
}

/// One screen of a design.
#[derive(Debug)]
pub struct Screen {
    pub name: String,
    pub html: String,
    pub css: Option<String>,
    pub notes: Option<String>,
}

impl View for Page {
    type V = UnitModel;

    open spec fn view(&self) -> UnitModel {
        UnitModel {
            name: Seq::empty(),
            html: self.html@,
            css: optional(self.css),
            notes: optional(self.notes),
        }
    }
}

impl View for Email {
    type V = UnitModel;

    open spec fn view(&self) -> UnitModel {
        UnitModel {
            name: Seq::empty(),
            html: self.html@,
            css: optional(self.css),
            notes: optional(self.notes),
        }
    }
}

impl View for Screen {
    type V = UnitModel;

    open spec fn view(&self) -> UnitModel {
        UnitModel {
            name: self.name@,
            html: self.html@,
            css: optional(self.css),
            notes: optional(self.notes),
        }
    }
}

impl Duplicate for Page {
    fn duplicate(&self) -> (r: Self) {
        Page {
            html: self.html.clone(),
            css: duplicate_optional(&self.css),
            notes: duplicate_optional(&self.notes),
        }
    }
}

impl Duplicate for Email {
    fn duplicate(&self) -> (r: Self) {
        Email {
            html: self.html.clone(),
            css: duplicate_optional(&self.css),
            notes: duplicate_optional(&self.notes),
        }
    }
}

impl Duplicate for Screen {
    fn duplicate(&self) -> (r: Self) {
        Screen {
            name: self.name.clone(),
            html: self.html.clone(),
            css: duplicate_optional(&self.css),
            notes: duplicate_optional(&self.notes),
        }
    }
}

/// What the units of every kind of artifact have in common.
pub trait Unit: Sized {
    /// The content of the unit.
    spec fn model(&self) -> UnitModel;

    /// The markup.
    fn html(&self) -> (r: &str)
        ensures
            r@ == self.model().html,
    ;

    /// The styles, when the unit has any.
    fn css(&self) -> (r: Option<&str>)
        ensures
            optional_str(r) == self.model().css,
    ;

    /// The unit with other markup and styles.
    fn with_content(&self, html: String, css: Option<String>) -> (r: Self)
        ensures
            r.model() == (UnitModel { html: html@, css: optional(css), ..self.model() }),
    ;
}

impl Unit for Page {
    open spec fn model(&self) -> UnitModel {
        self@
    }

    fn html(&self) -> (r: &str) {
        self.html.as_str()
    }

    fn css(&self) -> (r: Option<&str>) {
        borrowed(&self.css)
    }

    fn with_content(&self, html: String, css: Option<String>) -> (r: Self) {
        Page {
            html,
            css,
            notes: duplicate_optional(&self.notes),
        }
    }
}

impl Unit for Email {
    open spec fn model(&self) -> UnitModel {
        self@
    }

    fn html(&self) -> (r: &str) {
        self.html.as_str()
    }

    fn css(&self) -> (r: Option<&str>) {
        borrowed(&self.css)
    }

    fn with_content(&self, html: String, css: Option<String>) -> (r: Self) {
        Email {
            html,
            css,
            notes: duplicate_optional(&self.notes),
        }
    }
}

impl Unit for Screen {
    open spec fn model(&self) -> UnitModel {
        self@
    }

    fn html(&self) -> (r: &str) {
        self.html.as_str()
    }

    fn css(&self) -> (r: Option<&str>) {
        borrowed(&self.css)
    }

    fn with_content(&self, html: String, css: Option<String>) -> (r: Self) {
        Screen {
            name: self.name.clone(),
            html,
            css,
            notes: duplicate_optional(&self.notes),
        }
    }
}

/// The contents of a list of units.
pub open spec fn units_of<T: Unit>(units: Seq<T>) -> Seq<UnitModel> {
    units.map_values(|unit: T| unit.model())
}

/// True when both are absent or both hold the same text.
pub fn same_optional(a: &Option<String>, b: &Option<String>) -> (r: bool)
    ensures
        r == (optional(*a) == optional(*b)),
{
    match (a, b) {
        (Some(x), Some(y)) => *x == *y,
        (None, None) => true,
        _ => false,
    }
}

impl PartialEq for Page {
    fn eq(&self, other: &Self) -> (r: bool) {
        self.html == other.html && same_optional(&self.css, &other.css) && same_optional(
            &self.notes,
            &other.notes,
        )
    }
}

impl vstd::std_specs::cmp::PartialEqSpecImpl for Page {
    open spec fn obeys_eq_spec() -> bool {
        true
    }

    open spec fn eq_spec(&self, other: &Self) -> bool {
        self@ == other@
    }
}

impl PartialEq for Email {
    fn eq(&self, other: &Self) -> (r: bool) {
        self.html == other.html && same_optional(&self.css, &other.css) && same_optional(
            &self.notes,
            &other.notes,
        )
    }
}

impl vstd::std_specs::cmp::PartialEqSpecImpl for Email {
    open spec fn obeys_eq_spec() -> bool {
        true
    }

    open spec fn eq_spec(&self, other: &Self) -> bool {
        self@ == other@
    }
}

impl PartialEq for Screen {
    fn eq(&self, other: &Self) -> (r: bool) {
        self.name == other.name && self.html == other.html && same_optional(&self.css, &other.css)
            && same_optional(&self.notes, &other.notes)
    }
}

impl vstd::std_specs::cmp::PartialEqSpecImpl for Screen {
    open spec fn obeys_eq_spec() -> bool {
        true
    }

    open spec fn eq_spec(&self, other: &Self) -> bool {
        self@ == other@
    }
}

// -- Artifacts --------------------------------------------------------------

/// A paged document.
#[derive(Debug, PartialEq)]
pub struct Document {
    pub title: String,
    pub theme: Theme,
    pub paper: Paper,
    pub pages: Vec<Page>,
    /// The page titles of the complete document while it is a preview.
    pub outline: Vec<String>,
}

/// An email or a sequence of emails.
#[derive(Debug, PartialEq)]
pub struct Mailing {
    pub title: String,
    pub theme: Theme,
    pub format: EmailFormat,
    pub emails: Vec<Email>,
    /// The email titles of the complete mailing while it is a preview.
    pub outline: Vec<String>,
}

/// How a page transition shows the next screen.
#[derive(Clone, Copy, Debug, PartialEq, Eq)]
pub enum TransitionEffect {
    /// Written `none`: the next screen shows at once.
    Cut,
    Fade,
    Push,
    Cover,
    Zoom,
}

/// The axis a push or a cover moves along.
#[derive(Clone, Copy, Debug, PartialEq, Eq)]
pub enum TransitionAxis {
    Vertical,
    Horizontal,
}

/// A page transition.
#[derive(Clone, Copy, Debug, PartialEq, Eq)]
pub struct Transition {
    pub effect: TransitionEffect,
    pub axis: Option<TransitionAxis>,
    /// Its length in milliseconds.
    pub duration_ms: Option<u32>,
}

/// A design: screens on a device canvas.
#[derive(Debug, PartialEq)]
pub struct Design {
    pub title: String,
    pub theme: Theme,
    pub viewport: Viewport,
    /// The page transition. A design without one scrolls.
    pub transition: Option<Transition>,
    pub screens: Vec<Screen>,
    /// The screen titles of the complete design while it is a preview.
    pub outline: Vec<String>,
}

impl Document {
    /// A copy of the document.
    pub fn duplicate(&self) -> (r: Document)
        ensures
            r.title == self.title,
            r.theme == self.theme,
            r.paper == self.paper,
            r.pages@ == self.pages@,
            r.outline@ == self.outline@,
    {
        Document {
            title: self.title.clone(),
            theme: self.theme.duplicate(),
            paper: self.paper,
            pages: duplicate_list(&self.pages),
            outline: duplicate_list(&self.outline),
        }
    }

    /// True while pages of the outline are not written yet.
    pub fn is_preview(&self) -> (r: bool)
        ensures
            r == (self.pages@.len() < self.outline@.len()),
    {
        self.pages.len() < self.outline.len()
    }
}

impl Mailing {
    /// A copy of the mailing.
    pub fn duplicate(&self) -> (r: Mailing)
        ensures
            r.title == self.title,
            r.theme == self.theme,
            r.format == self.format,
            r.emails@ == self.emails@,
            r.outline@ == self.outline@,
    {
        Mailing {
            title: self.title.clone(),
            theme: self.theme.duplicate(),
            format: self.format,
            emails: duplicate_list(&self.emails),
            outline: duplicate_list(&self.outline),
        }
    }

    /// True while emails of the outline are not written yet.
    pub fn is_preview(&self) -> (r: bool)
        ensures
            r == (self.emails@.len() < self.outline@.len()),
    {
        self.emails.len() < self.outline.len()
    }
}

impl Design {
    /// A copy of the design.
    pub fn duplicate(&self) -> (r: Design)
        ensures
            r.title == self.title,
            r.theme == self.theme,
            r.viewport == self.viewport,
            r.transition == self.transition,
            r.screens@ == self.screens@,
            r.outline@ == self.outline@,
    {
        Design {
            title: self.title.clone(),
            theme: self.theme.duplicate(),
            viewport: self.viewport,
            transition: self.transition,
            screens: duplicate_list(&self.screens),
            outline: duplicate_list(&self.outline),
        }
    }

    /// True while screens of the outline are not written yet.
    pub fn is_preview(&self) -> (r: bool)
        ensures
            r == (self.screens@.len() < self.outline@.len()),
    {
        self.screens.len() < self.outline.len()
    }
}

} // verus!
