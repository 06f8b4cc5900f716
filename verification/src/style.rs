//! The style rules of an email: variables, declarations, and the cascade.
//!
//! A stylesheet splits into rules the inliner can place on elements and a
//! fallback stylesheet for the rest. The theme variables are resolved in
//! both. The cascade then merges, per element, the rules that match it.

use vstd::prelude::*;

use crate::css;
use crate::css::{find_block_end, find_prelude_end, split_top_level, strip_comments};
use crate::dom;
use crate::dom::{attribute_value, Element, ElementModel};
use crate::markup;
use crate::markup::css_safe;
use crate::model::Theme;
use crate::selector;
use crate::selector::{
    parse_selector, selector_matches, specificity_of, Combinator, Compound, Selector, SelectorModel,
    Specificity, SpecificityModel,
};
use crate::text;
use crate::text::{
    chars_of, find_char, find_text, owned, part, push_chars, same_chars, spells, text_of, to_lower,
    trimmed,
};

verus! {

// -- Variables --------------------------------------------------------------

/// One theme variable: its name and its literal value.
pub struct VariableModel {
    pub name: Seq<char>,
    pub value: Seq<char>,
}

/// One theme variable: its name and its literal value.
#[derive(Debug)]
pub struct Variable {
    pub name: String,
    pub value: String,
}

impl View for Variable {
    type V = VariableModel;

    open spec fn view(&self) -> VariableModel {
        VariableModel { name: self.name@, value: self.value@ }
    }
}

/// The variables of a list.
pub open spec fn variables_of(list: Seq<Variable>) -> Seq<VariableModel> {
    list.map_values(|variable: Variable| variable@)
}

/// The value of the first variable with this name.
pub open spec fn lookup(variables: Seq<VariableModel>, name: Seq<char>) -> Option<Seq<char>>
    decreases variables.len(),
{
    if variables.len() == 0 {
        None
    } else if variables[0].name == name {
        Some(variables[0].value)
    } else {
        lookup(variables.drop_first(), name)
    }
}

fn find_variable(variables: &Vec<Variable>, name: &[char]) -> (r: Option<String>)
    ensures
        match r {
            Some(value) => lookup(variables_of(variables@), name@) == Some(value@),
            None => lookup(variables_of(variables@), name@) is None,
        },
{
    let ghost all = variables_of(variables@);
    let mut i: usize = 0;
    assert(all.skip(0) =~= all);
    while i < variables.len()
        invariant
            i <= variables@.len(),
            all == variables_of(variables@),
            lookup(all, name@) == lookup(all.skip(i as int), name@),
        decreases variables@.len() - i,
    {
        assert(all.skip(i as int)[0] == variables@[i as int]@);
        if spells(name, variables[i].name.as_str()) {
            return Some(owned(variables[i].value.as_str()));
        }
        assert(all.skip(i as int).drop_first() =~= all.skip(i + 1));
        i += 1;
    }
    None
}

/// The position of the parenthesis that closes the `depth` open ones.
pub open spec fn closing(s: Seq<char>, i: int, depth: int) -> Option<int>
    decreases s.len() - i,
{
    if !(0 <= i < s.len()) {
        None
    } else if s[i] == '(' {
        closing(s, i + 1, depth + 1)
    } else if s[i] == ')' {
        if depth <= 1 {
            Some(i)
        } else {
            closing(s, i + 1, depth - 1)
        }
    } else {
        closing(s, i + 1, depth)
    }
}

proof fn lemma_closing(s: Seq<char>, i: int, depth: int)
    requires
        0 <= i,
    ensures
        closing(s, i, depth) matches Some(e) ==> i <= e < s.len(),
    decreases s.len() - i,
{
    if i < s.len() {
        lemma_closing(s, i + 1, depth + 1);
        lemma_closing(s, i + 1, depth - 1);
        lemma_closing(s, i + 1, depth);
    }
}

fn find_closing(chars: &[char], from: usize) -> (r: Option<usize>)
    requires
        from <= chars@.len(),
    ensures
        text::position(r) == closing(chars@, from as int, 1),
        r matches Some(e) ==> from <= e < chars@.len(),
{
    let mut inner: usize = 0;
    let mut i: usize = from;
    while i < chars.len()
        invariant
            from <= i <= chars@.len(),
            inner <= i - from,
            closing(chars@, from as int, 1) == closing(chars@, i as int, inner + 1),
        decreases chars@.len() - i,
    {
        let c = chars[i];
        if c == '(' {
            inner += 1;
        } else if c == ')' {
            if inner == 0 {
                return Some(i);
            }
            inner -= 1;
        }
        i += 1;
    }
    None
}

/// What stands for `var(inner)`: the value of the variable, else the
/// fallback behind the first comma.
pub open spec fn replacement(inner: Seq<char>, variables: Seq<VariableModel>) -> Option<
    Seq<char>,
> {
    let parts = css::split(inner, ',');
    match lookup(variables, text::trim(parts[0])) {
        Some(value) => Some(value),
        None => if parts.len() > 1 {
            Some(text::trim(text::join(parts.drop_first(), ","@)))
        } else {
            None
        },
    }
}

fn replace_variable(inner: &[char], variables: &Vec<Variable>) -> (r: Option<Vec<char>>)
    ensures
        selector::optional(r) == replacement(inner@, variables_of(variables@)),
{
    let mut parts = split_top_level(inner, ',');
    let ghost all = text::texts(parts@);
    let name = trimmed(&parts[0]);
    assert(all[0] == parts@[0]@);
    match find_variable(variables, &name) {
        Some(value) => Some(chars_of(value.as_str())),
        None => if parts.len() > 1 {
            let _ = parts.remove(0);
            assert(text::texts(parts@) =~= all.drop_first());
            Some(trimmed(&text::joined(&parts, ",")))
        } else {
            None
        },
    }
}

/// One pass over `s` from position `i`: the text with each `var()` replaced,
/// and whether any was. One that has no replacement stays as written; one
/// that never closes ends the pass.
pub open spec fn pass_from(s: Seq<char>, i: int, variables: Seq<VariableModel>) -> (Seq<char>, bool)
    decreases s.len() - i,
    via pass_decreases
{
    match text::find_from(s, "var("@, i) {
        None => (s.subrange(i, s.len() as int), false),
        Some(p) => match closing(s, p + 4, 1) {
            None => (s.subrange(i, s.len() as int), false),
            Some(e) => {
                let (rest, changed) = pass_from(s, e + 1, variables);
                match replacement(s.subrange(p + 4, e), variables) {
                    Some(value) => (s.subrange(i, p) + value + rest, true),
                    None => (s.subrange(i, e + 1) + rest, changed),
                }
            },
        },
    }
}

#[via_fn]
proof fn pass_decreases(s: Seq<char>, i: int, variables: Seq<VariableModel>) {
    reveal_strlit("var(");
    if i >= 0 {
        text::lemma_find_from(s, "var("@, i);
        if let Some(p) = text::find_from(s, "var("@, i) {
            lemma_closing(s, p + 4, 1);
        }
    }
}

/// One substitution pass, or `None` when nothing changed.
fn resolve_variables_once(value: &[char], variables: &Vec<Variable>) -> (r: Option<Vec<char>>)
    ensures
        match r {
            Some(replaced) => pass_from(value@, 0, variables_of(variables@)) == (replaced@, true),
            None => !pass_from(value@, 0, variables_of(variables@)).1,
        },
{
    let ghost known = variables_of(variables@);
    let mut out: Vec<char> = Vec::new();
    let mut changed = false;
    let mut i: usize = 0;
    let length: usize = value.len();
    loop
        invariant_except_break
            i <= length,
            length == value@.len(),
            known == variables_of(variables@),
            pass_from(value@, 0, known) == (
                out@ + pass_from(value@, i as int, known).0,
                changed || pass_from(value@, i as int, known).1,
            ),
        ensures
            i <= length,
            length == value@.len(),
            pass_from(value@, 0, known) == (
                out@ + value@.subrange(i as int, length as int),
                changed,
            ),
        decreases length - i,
    {
        let Some(p) = find_text(value, "var(", i) else {
            break;
        };
        proof {
            reveal_strlit("var(");
        }
        let Some(e) = find_closing(value, p + 4) else {
            break;
        };
        let ghost before = out@;
        let ghost rest = pass_from(value@, e + 1, known).0;
        match replace_variable(&part(value, p + 4, e), variables) {
            Some(text) => {
                text::extend_chars(&mut out, &part(value, i, p));
                text::extend_chars(&mut out, &text);
                changed = true;
                assert(before + (value@.subrange(i as int, p as int) + text@ + rest) =~= out@
                    + rest);
            },
            None => {
                text::extend_chars(&mut out, &part(value, i, e + 1));
                assert(before + (value@.subrange(i as int, e + 1) + rest) =~= out@ + rest);
            },
        }
        i = e + 1;
    }
    text::extend_chars(&mut out, &part(value, i, length));
    if changed {
        Some(out)
    } else {
        None
    }
}

/// `s` after up to `passes` passes, ending early when one changes nothing.
pub open spec fn resolved_in(s: Seq<char>, variables: Seq<VariableModel>, passes: nat) -> Seq<char>
    decreases passes,
{
    if passes == 0 {
        s
    } else {
        let (next, changed) = pass_from(s, 0, variables);
        if changed {
            resolved_in(next, variables, (passes - 1) as nat)
        } else {
            s
        }
    }
}

/// `s` with its variables resolved. Fallbacks that use variables resolve
/// over three passes.
pub open spec fn resolved(s: Seq<char>, variables: Seq<VariableModel>) -> Seq<char> {
    resolved_in(s, variables, 3)
}

fn resolve_chars(value: &[char], variables: &Vec<Variable>) -> (r: Vec<char>)
    ensures
        r@ == resolved(value@, variables_of(variables@)),
{
    let ghost known = variables_of(variables@);
    let mut current = part(value, 0, value.len());
    assert(current@ =~= value@);
    let mut passes: usize = 3;
    while passes > 0
        invariant
            passes <= 3,
            known == variables_of(variables@),
            resolved(value@, known) == resolved_in(current@, known, passes as nat),
        ensures
            resolved(value@, known) == current@,
        decreases passes,
    {
        match resolve_variables_once(&current, variables) {
            Some(replaced) => {
                current = replaced;
            },
            None => {
                break;
            },
        }
        passes -= 1;
    }
    current
}

/// Replaces `var(--name)` and `var(--name, fallback)` with the theme values.
/// An unknown variable keeps its fallback, or stays as written without one.
pub fn resolve_variables(value: &str, variables: &Vec<Variable>) -> (r: String)
    ensures
        r@ == resolved(value@, variables_of(variables@)),
{
    text_of(&resolve_chars(&chars_of(value), variables))
}

/// A text without any `var(` is resolved already.
pub proof fn law_text_without_variables_is_kept(s: Seq<char>, variables: Seq<VariableModel>)
    requires
        text::find(s, "var("@) is None,
    ensures
        resolved(s, variables) == s,
{
}

// -- The theme's variables --------------------------------------------------

/// A font family and the families to fall back on.
pub open spec fn font_stack(family: Seq<char>) -> Seq<char> {
    "'"@ + markup::css_safe_text(family) + "', Inter, system-ui, sans-serif"@
}

/// A monospaced font family and the families to fall back on.
pub open spec fn mono_stack(family: Seq<char>) -> Seq<char> {
    "'"@ + markup::css_safe_text(family) + "', ui-monospace, monospace"@
}

/// The seven theme variables.
pub open spec fn variables_for(theme: Theme) -> Seq<VariableModel> {
    seq![
        VariableModel {
            name: "--background"@,
            value: markup::css_safe_text(theme.colors.background@),
        },
        VariableModel { name: "--text"@, value: markup::css_safe_text(theme.colors.text@) },
        VariableModel { name: "--accent"@, value: markup::css_safe_text(theme.colors.accent@) },
        VariableModel { name: "--muted"@, value: markup::css_safe_text(theme.colors.muted@) },
        VariableModel { name: "--heading-font"@, value: font_stack(theme.fonts.heading@) },
        VariableModel { name: "--body-font"@, value: font_stack(theme.fonts.body@) },
        VariableModel { name: "--mono-font"@, value: mono_stack(theme.fonts.mono@) },
    ]
}

fn font_value(family: &str) -> (r: String)
    ensures
        r@ == font_stack(family@),
{
    let mut r = owned("'");
    r.append(css_safe(family).as_str());
    r.append("', Inter, system-ui, sans-serif");
    r
}

fn mono_value(family: &str) -> (r: String)
    ensures
        r@ == mono_stack(family@),
{
    let mut r = owned("'");
    r.append(css_safe(family).as_str());
    r.append("', ui-monospace, monospace");
    r
}

/// The seven theme variables as (name, literal value).
pub fn theme_variables(theme: &Theme) -> (r: Vec<Variable>)
    ensures
        variables_of(r@) == variables_for(*theme),
{
    let mut r: Vec<Variable> = Vec::new();
    r.push(
        Variable {
            name: owned("--background"),
            value: css_safe(theme.colors.background.as_str()),
        },
    );
    r.push(Variable { name: owned("--text"), value: css_safe(theme.colors.text.as_str()) });
    r.push(Variable { name: owned("--accent"), value: css_safe(theme.colors.accent.as_str()) });
    r.push(Variable { name: owned("--muted"), value: css_safe(theme.colors.muted.as_str()) });
    r.push(
        Variable { name: owned("--heading-font"), value: font_value(theme.fonts.heading.as_str()) },
    );
    r.push(Variable { name: owned("--body-font"), value: font_value(theme.fonts.body.as_str()) });
    r.push(Variable { name: owned("--mono-font"), value: mono_value(theme.fonts.mono.as_str()) });
    assert(variables_of(r@) =~= variables_for(*theme));
    r
}

// -- Declarations -----------------------------------------------------------

/// The property name of a declaration, in lower case.
pub open spec fn property_of(declaration: Seq<char>) -> Seq<char> {
    let end = match text::find_char_from(declaration, ':', 0) {
        Some(colon) => colon,
        None => declaration.len() as int,
    };
    text::lower(text::trim(declaration.subrange(0, end)))
}

/// True for a property that moves an element: an animation or a transition.
pub open spec fn is_motion(property: Seq<char>) -> bool {
    text::starts_with(property, "animation"@) || text::starts_with(property, "transition"@)
}

/// True for a property that moves an element.
fn moves(property: &[char]) -> (r: bool)
    ensures
        r == is_motion(property@),
{
    text::begins_with(property, "animation") || text::begins_with(property, "transition")
}

/// True for a declaration an email keeps: it is not empty and neither an
/// animation nor a transition.
pub open spec fn is_kept(declaration: Seq<char>) -> bool {
    declaration.len() > 0 && !is_motion(property_of(declaration))
}

/// The declarations an email keeps, trimmed, in order.
pub open spec fn kept(parts: Seq<Seq<char>>) -> Seq<Seq<char>>
    decreases parts.len(),
{
    if parts.len() == 0 {
        Seq::empty()
    } else {
        let before = kept(parts.drop_last());
        let declaration = text::trim(parts.last());
        if is_kept(declaration) {
            before.push(declaration)
        } else {
            before
        }
    }
}

/// The declarations of a block without animations and transitions, with
/// single semicolons between them.
pub open spec fn cleaned(body: Seq<char>) -> Seq<char> {
    text::join(kept(css::split(body, ';')), "; "@)
}

/// No animation and no transition is kept, and no empty declaration.
pub proof fn law_no_animation_is_kept(parts: Seq<Seq<char>>)
    ensures
        forall|k: int| 0 <= k < kept(parts).len() ==> is_kept(#[trigger] kept(parts)[k]),
    decreases parts.len(),
{
    if parts.len() > 0 {
        law_no_animation_is_kept(parts.drop_last());
        let before = kept(parts.drop_last());
        assert forall|k: int| 0 <= k < kept(parts).len() implies is_kept(
            #[trigger] kept(parts)[k],
        ) by {
            if k < before.len() {
                assert(kept(parts)[k] == before[k]);
            }
        }
    }
}

fn property_name(declaration: &[char]) -> (r: Vec<char>)
    ensures
        r@ == property_of(declaration@),
{
    let end = match find_char(declaration, ':', 0) {
        Some(colon) => colon,
        None => declaration.len(),
    };
    to_lower(&trimmed(&part(declaration, 0, end)))
}

/// The declarations without `animation` and `transition` properties, joined
/// with single semicolons.
pub fn clean_declarations(body: &[char]) -> (r: Vec<char>)
    ensures
        r@ == cleaned(body@),
{
    let parts = split_top_level(body, ';');
    let ghost all = text::texts(parts@);
    let mut list: Vec<Vec<char>> = Vec::new();
    let mut i: usize = 0;
    assert(text::texts(list@) =~= kept(all.take(0)));
    while i < parts.len()
        invariant
            i <= parts@.len(),
            all == text::texts(parts@),
            text::texts(list@) == kept(all.take(i as int)),
        decreases parts@.len() - i,
    {
        assert(all.take(i + 1).drop_last() =~= all.take(i as int));
        assert(all.take(i + 1).last() == parts@[i as int]@);
        let declaration = trimmed(&parts[i]);
        let property = property_name(&declaration);
        if declaration.len() > 0 && !moves(&property) {
            let ghost before = list@;
            list.push(declaration);
            assert(text::texts(list@) =~= text::texts(before).push(declaration@));
        }
        i += 1;
    }
    assert(all.take(i as int) =~= all);
    text::joined(&list, "; ")
}

// -- Rules ------------------------------------------------------------------

/// One inlinable rule: a selector, its declarations, and its place in the
/// cascade.
pub struct RuleModel {
    pub selector: SelectorModel,
    pub declarations: Seq<char>,
    pub specificity: SpecificityModel,
    pub order: int,
}

/// One inlinable rule: a selector, its declarations, and its place in the
/// cascade.
#[derive(Debug)]
pub struct StyleRule {
    pub selector: Selector,
    pub declarations: String,
    pub specificity: Specificity,
    pub order: usize,
}

impl View for StyleRule {
    type V = RuleModel;

    open spec fn view(&self) -> RuleModel {
        RuleModel {
            selector: self.selector@,
            declarations: self.declarations@,
            specificity: self.specificity@,
            order: self.order as int,
        }
    }
}

/// The rules of a list.
pub open spec fn rules_of(list: Seq<StyleRule>) -> Seq<RuleModel> {
    list.map_values(|rule: StyleRule| rule@)
}

/// Every rule of the list has a selector to match.
pub open spec fn are_rules(rules: Seq<RuleModel>) -> bool {
    forall|i: int| 0 <= i < rules.len() ==> selector::is_selector((#[trigger] rules[i]).selector)
}

/// A stylesheet as read so far: the rules to inline, the fallback
/// stylesheet, and the order of the next rule.
pub struct SheetModel {
    pub rules: Seq<RuleModel>,
    pub fallback: Seq<char>,
    pub order: int,
}

/// The rules for the selectors of a list that can be inlined.
pub open spec fn inlined(
    selectors: Seq<Seq<char>>,
    declarations: Seq<char>,
    order: int,
) -> Seq<RuleModel>
    decreases selectors.len(),
{
    if selectors.len() == 0 {
        Seq::empty()
    } else {
        let before = inlined(selectors.drop_last(), declarations, order);
        match selector::selector_of(selectors.last()) {
            Some(parsed) => before.push(
                RuleModel {
                    selector: parsed,
                    declarations,
                    specificity: selector::specificity(parsed.compounds),
                    order,
                },
            ),
            None => before,
        }
    }
}

/// The selectors of a list that cannot be inlined, trimmed.
pub open spec fn unsupported(selectors: Seq<Seq<char>>) -> Seq<Seq<char>>
    decreases selectors.len(),
{
    if selectors.len() == 0 {
        Seq::empty()
    } else {
        let before = unsupported(selectors.drop_last());
        match selector::selector_of(selectors.last()) {
            Some(_) => before,
            None => before.push(text::trim(selectors.last())),
        }
    }
}

/// A rule as the fallback stylesheet writes it.
pub open spec fn written_rule(prelude: Seq<char>, body: Seq<char>) -> Seq<char> {
    prelude + "{"@ + body + "}\n"@
}

/// True for the prelude of an at-rule.
pub open spec fn is_at_rule(prelude: Seq<char>) -> bool {
    prelude.len() > 0 && prelude[0] == '@'
}

/// True for the at-rule that an email drops.
pub open spec fn is_keyframes(prelude: Seq<char>) -> bool {
    let names = text::words(prelude.drop_first());
    names.len() > 0 && text::lower(names[0]) == "keyframes"@
}

/// A declaration as it stands in a block, or nothing when it moves an
/// element.
pub open spec fn still_declaration(declaration: Seq<char>) -> Seq<char> {
    if is_motion(property_of(text::trim(declaration))) {
        Seq::empty()
    } else {
        declaration
    }
}

/// The block `s` from position `i`, as it stands, without the animations, the
/// transitions and the `@keyframes` in it, at any depth. A nested rule that
/// never closes ends the block.
pub open spec fn stilled_from(s: Seq<char>, i: int) -> Seq<char>
    decreases s.len(), s.len() - i,
    via stilled_decreases
{
    if !(0 <= i < s.len()) {
        Seq::empty()
    } else {
        match css::prelude_end(s, i) {
            None => still_declaration(s.subrange(i, s.len() as int)),
            Some(e) => if s[e] == ';' {
                still_declaration(s.subrange(i, e + 1)) + stilled_from(s, e + 1)
            } else {
                match css::block_end(s, e + 1) {
                    None => Seq::empty(),
                    Some(b) => {
                        let prelude = text::trim(s.subrange(i, e));
                        let rule = if is_at_rule(prelude) && is_keyframes(prelude) {
                            Seq::empty()
                        } else {
                            s.subrange(i, e + 1) + stilled_from(s.subrange(e + 1, b), 0) + "}"@
                        };
                        rule + stilled_from(s, b + 1)
                    },
                }
            },
        }
    }
}

#[via_fn]
proof fn stilled_decreases(s: Seq<char>, i: int) {
    if 0 <= i < s.len() {
        css::lemma_prelude_end(s, i, css::top_level());
        if let Some(e) = css::prelude_end(s, i) {
            css::lemma_block_end(s, e + 1, 0, None);
        }
    }
}

/// A block with nested rules without its animations, its transitions and its
/// `@keyframes`.
pub open spec fn stilled(body: Seq<char>) -> Seq<char> {
    stilled_from(body, 0)
}

/// The stylesheet after one rule with this prelude and body. `@keyframes`
/// is dropped. Another at-rule, and a rule with nested rules, goes to the
/// fallback without the animations and transitions in it. The selectors of a plain rule are inlined where they
/// can be; the others go to the fallback together.
pub open spec fn with_rule(
    sheet: SheetModel,
    prelude: Seq<char>,
    body: Seq<char>,
    variables: Seq<VariableModel>,
) -> SheetModel {
    if is_at_rule(prelude) && is_keyframes(prelude) {
        sheet
    } else if is_at_rule(prelude) || body.contains('{') {
        SheetModel {
            fallback: sheet.fallback + written_rule(
                resolved(prelude, variables),
                stilled(resolved(body, variables)),
            ),
            ..sheet
        }
    } else {
        let declarations = cleaned(resolved(body, variables));
        if declarations.len() == 0 {
            sheet
        } else {
            let selectors = css::split(prelude, ',');
            let others = unsupported(selectors);
            SheetModel {
                rules: sheet.rules + inlined(selectors, declarations, sheet.order),
                fallback: if others.len() == 0 {
                    sheet.fallback
                } else {
                    sheet.fallback + written_rule(text::join(others, ", "@), declarations)
                },
                order: sheet.order + 1,
            }
        }
    }
}

/// The stylesheet `s` read from position `i`. A statement that ends at a
/// semicolon is skipped; a rule that never closes ends the stylesheet.
pub open spec fn sheet_from(
    s: Seq<char>,
    i: int,
    sheet: SheetModel,
    variables: Seq<VariableModel>,
) -> SheetModel
    decreases s.len() - i,
    via sheet_decreases
{
    if !(0 <= i) || text::skip_space(s, i) >= s.len() {
        sheet
    } else {
        match css::prelude_end(s, i) {
            None => sheet,
            Some(e) => if s[e] == ';' {
                sheet_from(s, e + 1, sheet, variables)
            } else {
                match css::block_end(s, e + 1) {
                    None => sheet,
                    Some(b) => sheet_from(
                        s,
                        b + 1,
                        with_rule(
                            sheet,
                            text::trim(s.subrange(i, e)),
                            s.subrange(e + 1, b),
                            variables,
                        ),
                        variables,
                    ),
                }
            },
        }
    }
}

#[via_fn]
proof fn sheet_decreases(
    s: Seq<char>,
    i: int,
    sheet: SheetModel,
    variables: Seq<VariableModel>,
) {
    if 0 <= i {
        css::lemma_prelude_end(s, i, css::top_level());
        if let Some(e) = css::prelude_end(s, i) {
            css::lemma_block_end(s, e + 1, 0, None);
        }
    }
}

/// The stylesheet `s`: its inlinable rules and its fallback.
pub open spec fn sheet_of(s: Seq<char>, variables: Seq<VariableModel>) -> SheetModel {
    sheet_from(
        css::uncommented(s),
        0,
        SheetModel { rules: Seq::empty(), fallback: Seq::empty(), order: 1 },
        variables,
    )
}

/// A stylesheet as read so far.
struct Sheet {
    rules: Vec<StyleRule>,
    fallback: String,
    order: usize,
}

impl View for Sheet {
    type V = SheetModel;

    closed spec fn view(&self) -> SheetModel {
        SheetModel {
            rules: rules_of(self.rules@),
            fallback: self.fallback@,
            order: self.order as int,
        }
    }
}

/// Writes one rule into the fallback stylesheet.
fn push_rule(fallback: &mut String, prelude: &[char], body: &[char])
    ensures
        final(fallback)@ == old(fallback)@ + written_rule(prelude@, body@),
{
    push_chars(fallback, prelude);
    fallback.append("{");
    push_chars(fallback, body);
    fallback.append("}\n");
    assert(fallback@ =~= old(fallback)@ + written_rule(prelude@, body@));
}

fn read_plain_rule(sheet: &mut Sheet, prelude: &[char], declarations: &[char])
    requires
        declarations@.len() > 0,
        old(sheet).order < usize::MAX,
        are_rules(old(sheet)@.rules),
    ensures
        final(sheet)@.rules == old(sheet)@.rules + inlined(
            css::split(prelude@, ','),
            declarations@,
            old(sheet).order as int,
        ),
        final(sheet)@.fallback == (if unsupported(css::split(prelude@, ',')).len() == 0 {
            old(sheet)@.fallback
        } else {
            old(sheet)@.fallback + written_rule(
                text::join(unsupported(css::split(prelude@, ',')), ", "@),
                declarations@,
            )
        }),
        final(sheet).order == old(sheet).order + 1,
        are_rules(final(sheet)@.rules),
{
    let parts = split_top_level(prelude, ',');
    let ghost all = text::texts(parts@);
    let ghost start = sheet@.rules;
    let order = sheet.order;
    let mut others: Vec<Vec<char>> = Vec::new();
    let mut i: usize = 0;
    assert(text::texts(others@) =~= unsupported(all.take(0)));
    assert(start + inlined(all.take(0), declarations@, order as int) =~= start);
    while i < parts.len()
        invariant
            i <= parts@.len(),
            all == text::texts(parts@),
            order == old(sheet).order,
            sheet.order == old(sheet).order,
            sheet@.fallback == old(sheet)@.fallback,
            sheet@.rules == start + inlined(all.take(i as int), declarations@, order as int),
            are_rules(sheet@.rules),
            text::texts(others@) == unsupported(all.take(i as int)),
        decreases parts@.len() - i,
    {
        assert(all.take(i + 1).drop_last() =~= all.take(i as int));
        assert(all.take(i + 1).last() == parts@[i as int]@);
        match parse_selector(&parts[i]) {
            Some(parsed) => {
                let specificity = specificity_of(&parsed);
                let ghost before = sheet.rules@;
                let rule = StyleRule {
                    selector: parsed,
                    declarations: text_of(declarations),
                    specificity,
                    order,
                };
                let ghost model = rule@;
                sheet.rules.push(rule);
                proof {
                    assert(rules_of(sheet.rules@) =~= rules_of(before).push(model));
                    assert(start + inlined(all.take(i as int), declarations@, order as int).push(
                        model,
                    ) =~= (start + inlined(
                        all.take(i as int),
                        declarations@,
                        order as int,
                    )).push(model));
                }
            },
            None => {
                let ghost before = others@;
                let name = trimmed(&parts[i]);
                others.push(name);
                assert(text::texts(others@) =~= text::texts(before).push(name@));
            },
        }
        i += 1;
    }
    assert(all.take(i as int) =~= all);
    if others.len() > 0 {
        push_rule(&mut sheet.fallback, &text::joined(&others, ", "), declarations);
    }
    sheet.order = order + 1;
}

fn keyframes(prelude: &[char]) -> (r: bool)
    requires
        prelude@.len() > 0,
    ensures
        r == is_keyframes(prelude@),
{
    let tail = part(prelude, 1, prelude.len());
    assert(tail@ =~= prelude@.drop_first());
    let names = text::words_of(&tail);
    if names.len() == 0 {
        return false;
    }
    assert(text::texts(names@)[0] == names@[0]@);
    spells(&to_lower(&names[0]), "keyframes")
}

fn push_declaration(out: &mut Vec<char>, declaration: &[char])
    ensures
        final(out)@ == old(out)@ + still_declaration(declaration@),
{
    if !moves(&property_name(&trimmed(declaration))) {
        text::extend_chars(out, declaration);
    }
    assert(out@ =~= old(out)@ + still_declaration(declaration@));
}

/// A block with nested rules without its animations, its transitions and its
/// `@keyframes`.
fn still_block(s: &[char]) -> (r: Vec<char>)
    ensures
        r@ == stilled(s@),
    decreases s@.len(),
{
    let length: usize = s.len();
    let mut out: Vec<char> = Vec::new();
    let mut i: usize = 0;
    assert(out@ + stilled_from(s@, 0) =~= stilled(s@));
    while i < length
        invariant_except_break
            i <= length,
            length == s@.len(),
            stilled(s@) == out@ + stilled_from(s@, i as int),
        ensures
            stilled(s@) == out@,
        decreases length - i,
    {
        let ghost before = out@;
        let ghost start = i as int;
        let Some(e) = find_prelude_end(s, i) else {
            push_declaration(&mut out, &part(s, i, length));
            break;
        };
        if s[e] == ';' {
            push_declaration(&mut out, &part(s, i, e + 1));
            i = e + 1;
            assert(before + (still_declaration(s@.subrange(start, e + 1)) + stilled_from(
                s@,
                e + 1,
            )) =~= out@ + stilled_from(s@, e + 1));
            continue;
        }
        let Some(b) = find_block_end(s, e + 1) else {
            break;
        };
        let prelude = trimmed(&part(s, i, e));
        if !(prelude.len() > 0 && prelude[0] == '@' && keyframes(&prelude)) {
            let inner = part(s, e + 1, b);
            text::extend_chars(&mut out, &part(s, i, e + 1));
            text::extend_chars(&mut out, &still_block(&inner));
            text::extend_chars(&mut out, &chars_of("}"));
        }
        i = b + 1;
        proof {
            let rest = stilled_from(s@, b + 1);
            let inside = stilled_from(s@.subrange(e + 1, b as int), 0);
            assert(before + ((s@.subrange(start, e + 1) + inside + "}"@) + rest) =~= (before
                + s@.subrange(start, e + 1) + inside + "}"@) + rest);
            assert(before + (Seq::<char>::empty() + rest) =~= before + rest);
        }
    }
    assert(stilled_from(s@, length as int) =~= Seq::<char>::empty());
    out
}

fn read_rule(sheet: &mut Sheet, prelude: &[char], body: &[char], variables: &Vec<Variable>)
    requires
        old(sheet).order < usize::MAX,
        are_rules(old(sheet)@.rules),
    ensures
        final(sheet)@ == with_rule(old(sheet)@, prelude@, body@, variables_of(variables@)),
        final(sheet).order <= old(sheet).order + 1,
        are_rules(final(sheet)@.rules),
{
    let is_at_rule = prelude.len() > 0 && prelude[0] == '@';
    if is_at_rule && keyframes(prelude) {
        return;
    }
    if is_at_rule || text::contains_char(body, '{') {
        push_rule(
            &mut sheet.fallback,
            &resolve_chars(prelude, variables),
            &still_block(&resolve_chars(body, variables)),
        );
        return;
    }
    let declarations = clean_declarations(&resolve_chars(body, variables));
    if declarations.len() == 0 {
        return;
    }
    read_plain_rule(sheet, prelude, &declarations);
}

/// Splits `css` into inlinable rules and a fallback stylesheet, with the
/// theme variables resolved in both.
pub fn parse_rules(css: &str, variables: &Vec<Variable>) -> (r: (Vec<StyleRule>, String))
    ensures
        rules_of(r.0@) == sheet_of(css@, variables_of(variables@)).rules,
        r.1@ == sheet_of(css@, variables_of(variables@)).fallback,
        are_rules(rules_of(r.0@)),
        forall|k: int| 0 <= k < r.0@.len() ==> (#[trigger] r.0@[k]).order <= usize::MAX / 2 + 1,
{
    let s = strip_comments(&chars_of(css));
    let length: usize = s.len();
    let ghost known = variables_of(variables@);
    let mut sheet = Sheet { rules: Vec::new(), fallback: String::new(), order: 1 };
    assert(rules_of(sheet.rules@) =~= Seq::<RuleModel>::empty());
    let mut i: usize = 0;
    loop
        invariant_except_break
            i <= length,
            length == s@.len(),
            known == variables_of(variables@),
            s@ == css::uncommented(css@),
            2 * (sheet.order - 1) <= i,
            sheet_of(css@, known) == sheet_from(s@, i as int, sheet@, known),
            are_rules(sheet@.rules),
            forall|k: int|
                0 <= k < sheet.rules@.len() ==> (#[trigger] sheet@.rules[k]).order < sheet.order,
        ensures
            length == s@.len(),
            2 * (sheet.order - 1) <= length,
            sheet_of(css@, known) == sheet@,
            are_rules(sheet@.rules),
            forall|k: int|
                0 <= k < sheet.rules@.len() ==> (#[trigger] sheet@.rules[k]).order < sheet.order,
        decreases length - i,
    {
        if text::after_space(&s, i) >= length {
            break;
        }
        let Some(e) = find_prelude_end(&s, i) else {
            break;
        };
        let prelude = trimmed(&part(&s, i, e));
        if s[e] == ';' {
            i = e + 1;
            continue;
        }
        let Some(b) = find_block_end(&s, e + 1) else {
            break;
        };
        let body = part(&s, e + 1, b);
        let ghost before = sheet@;
        read_rule(&mut sheet, &prelude, &body, variables);
        proof {
            lemma_orders(before, prelude@, body@, known);
            assert forall|k: int| 0 <= k < sheet.rules@.len() implies (
            #[trigger] sheet@.rules[k]).order < sheet.order by {
                if k < before.rules.len() {
                    assert(sheet@.rules[k] == before.rules[k]);
                }
            }
        }
        i = b + 1;
    }
    proof {
        assert forall|k: int| 0 <= k < sheet.rules@.len() implies (
        #[trigger] sheet.rules@[k]).order <= usize::MAX / 2 + 1 by {
            assert(sheet@.rules[k] == sheet.rules@[k]@);
        }
    }
    (sheet.rules, sheet.fallback)
}

/// A rule is added at the order of the stylesheet, behind the rules before.
proof fn lemma_orders(
    sheet: SheetModel,
    prelude: Seq<char>,
    body: Seq<char>,
    variables: Seq<VariableModel>,
)
    ensures
        ({
            let after = with_rule(sheet, prelude, body, variables);
            &&& sheet.order <= after.order
            &&& sheet.rules.len() <= after.rules.len()
            &&& forall|k: int| 0 <= k < sheet.rules.len() ==> after.rules[k] == sheet.rules[k]
            &&& forall|k: int|
                sheet.rules.len() <= k < after.rules.len() ==> (#[trigger] after.rules[k]).order
                    == sheet.order && sheet.order < after.order
        }),
{
    let declarations = cleaned(resolved(body, variables));
    lemma_inlined_order(css::split(prelude, ','), declarations, sheet.order);
}

proof fn lemma_inlined_order(selectors: Seq<Seq<char>>, declarations: Seq<char>, order: int)
    ensures
        forall|k: int|
            0 <= k < inlined(selectors, declarations, order).len() ==> (#[trigger] inlined(
                selectors,
                declarations,
                order,
            )[k]).order == order,
    decreases selectors.len(),
{
    if selectors.len() > 0 {
        lemma_inlined_order(selectors.drop_last(), declarations, order);
        let before = inlined(selectors.drop_last(), declarations, order);
        let all = inlined(selectors, declarations, order);
        assert forall|k: int| 0 <= k < all.len() implies (#[trigger] all[k]).order == order by {
            if k < before.len() {
                assert(all[k] == before[k]);
            }
        }
    }
}

// -- The base rules ---------------------------------------------------------

/// A base rule for one tag: below every author rule, by its position.
pub open spec fn base_rule(tag: Seq<char>, declarations: Seq<char>, order: int) -> RuleModel {
    RuleModel {
        selector: SelectorModel {
            compounds: seq![
                selector::CompoundModel { tag: Some(tag), ..selector::any_element() },
            ],
            combinators: Seq::empty(),
        },
        declarations,
        specificity: SpecificityModel { ids: 0, classes: 0, tags: 0 },
        order,
    }
}

/// What headings look like in a theme.
pub open spec fn heading_style(theme: Theme) -> Seq<char> {
    "font-family: "@ + font_stack(theme.fonts.heading@)
        + "; line-height: 1.1; margin: 0; letter-spacing: -0.02em"@
}

/// What code looks like in a theme.
pub open spec fn code_style(theme: Theme) -> Seq<char> {
    "font-family: "@ + mono_stack(theme.fonts.mono@)
}

/// What links look like in a theme.
pub open spec fn link_style(theme: Theme) -> Seq<char> {
    "color: "@ + markup::css_safe_text(theme.colors.accent@)
}

/// The studio base styles: one rule per tag, in order.
pub open spec fn base_rules_for(theme: Theme) -> Seq<RuleModel> {
    let heading = heading_style(theme);
    let code = code_style(theme);
    seq![
        base_rule("h1"@, heading, 0),
        base_rule("h2"@, heading, 0),
        base_rule("h3"@, heading, 0),
        base_rule("h4"@, heading, 0),
        base_rule("h5"@, heading, 0),
        base_rule("h6"@, heading, 0),
        base_rule("p"@, "margin: 0"@, 1),
        base_rule("ul"@, "margin: 0"@, 1),
        base_rule("ol"@, "margin: 0"@, 1),
        base_rule("figure"@, "margin: 0"@, 1),
        base_rule("blockquote"@, "margin: 0"@, 1),
        base_rule("ul"@, "padding-left: 1.2em"@, 2),
        base_rule("ol"@, "padding-left: 1.2em"@, 2),
        base_rule("img"@, "display: block; max-width: 100%"@, 3),
        base_rule("pre"@, code, 4),
        base_rule("code"@, code, 4),
        base_rule("a"@, link_style(theme), 5),
        base_rule("table"@, "border-collapse: collapse"@, 6),
    ]
}

/// How many base rules there are.
pub const BASE_RULE_COUNT: usize = 18;

fn push_base_rule(rules: &mut Vec<StyleRule>, tag: &str, declarations: &str, order: usize)
    ensures
        rules_of(final(rules)@) == rules_of(old(rules)@).push(
            base_rule(tag@, declarations@, order as int),
        ),
        final(rules)@.len() == old(rules)@.len() + 1,
{
    let ghost before = rules@;
    let mut compounds: Vec<Compound> = Vec::new();
    let compound = Compound {
        tag: Some(chars_of(tag)),
        id: None,
        classes: Vec::new(),
        pseudo: None,
    };
    assert(text::texts(compound.classes@) =~= Seq::<Seq<char>>::empty());
    let ghost model = compound@;
    compounds.push(compound);
    assert(selector::compounds_of(compounds@) =~= seq![model]);
    let combinators: Vec<Combinator> = Vec::new();
    assert(combinators@ =~= Seq::<Combinator>::empty());
    rules.push(
        StyleRule {
            selector: Selector { compounds, combinators },
            declarations: owned(declarations),
            specificity: Specificity { ids: 0, classes: 0, tags: 0 },
            order,
        },
    );
    assert(rules_of(rules@) =~= rules_of(before).push(
        base_rule(tag@, declarations@, order as int),
    ));
}

/// The studio base styles as rules below every author rule, without the
/// canvas machinery.
pub fn base_rules(theme: &Theme) -> (rules: Vec<StyleRule>)
    ensures
        rules_of(rules@) == base_rules_for(*theme),
        rules@.len() == BASE_RULE_COUNT,
        are_rules(rules_of(rules@)),
{
    let mut heading = owned("font-family: ");
    heading.append(font_value(theme.fonts.heading.as_str()).as_str());
    heading.append("; line-height: 1.1; margin: 0; letter-spacing: -0.02em");
    let mut code = owned("font-family: ");
    code.append(mono_value(theme.fonts.mono.as_str()).as_str());
    let mut link = owned("color: ");
    link.append(css_safe(theme.colors.accent.as_str()).as_str());
    let mut rules: Vec<StyleRule> = Vec::new();
    assert(rules_of(rules@) =~= Seq::<RuleModel>::empty());
    push_base_rule(&mut rules, "h1", heading.as_str(), 0);
    push_base_rule(&mut rules, "h2", heading.as_str(), 0);
    push_base_rule(&mut rules, "h3", heading.as_str(), 0);
    push_base_rule(&mut rules, "h4", heading.as_str(), 0);
    push_base_rule(&mut rules, "h5", heading.as_str(), 0);
    push_base_rule(&mut rules, "h6", heading.as_str(), 0);
    push_base_rule(&mut rules, "p", "margin: 0", 1);
    push_base_rule(&mut rules, "ul", "margin: 0", 1);
    push_base_rule(&mut rules, "ol", "margin: 0", 1);
    push_base_rule(&mut rules, "figure", "margin: 0", 1);
    push_base_rule(&mut rules, "blockquote", "margin: 0", 1);
    push_base_rule(&mut rules, "ul", "padding-left: 1.2em", 2);
    push_base_rule(&mut rules, "ol", "padding-left: 1.2em", 2);
    push_base_rule(&mut rules, "img", "display: block; max-width: 100%", 3);
    push_base_rule(&mut rules, "pre", code.as_str(), 4);
    push_base_rule(&mut rules, "code", code.as_str(), 4);
    push_base_rule(&mut rules, "a", link.as_str(), 5);
    push_base_rule(&mut rules, "table", "border-collapse: collapse", 6);
    assert(rules_of(rules@) =~= base_rules_for(*theme));
    rules
}

/// The rules of an email in one list: the base rules, then the author's,
/// ordered behind every base rule.
pub open spec fn all_rules_for(author: Seq<RuleModel>, theme: Theme) -> Seq<RuleModel> {
    base_rules_for(theme) + author.map_values(
        |rule: RuleModel| RuleModel { order: rule.order + BASE_RULE_COUNT, ..rule },
    )
}

/// The base rules and the author's rules in one list.
pub fn all_rules(author: Vec<StyleRule>, theme: &Theme) -> (rules: Vec<StyleRule>)
    requires
        are_rules(rules_of(author@)),
        forall|k: int| 0 <= k < author@.len() ==> (#[trigger] author@[k]).order <= usize::MAX / 2 + 1,
    ensures
        rules_of(rules@) == all_rules_for(rules_of(author@), *theme),
        are_rules(rules_of(rules@)),
{
    let mut rules = base_rules(theme);
    let ghost base = rules@;
    let ghost models = rules_of(author@);
    let mut rest = author;
    let mut moved: Vec<StyleRule> = Vec::new();
    let ghost shifted = models.map_values(
        |rule: RuleModel| RuleModel { order: rule.order + BASE_RULE_COUNT, ..rule },
    );
    while rest.len() > 0
        invariant
            models == rules_of(author@),
            shifted == models.map_values(
                |rule: RuleModel| RuleModel { order: rule.order + BASE_RULE_COUNT, ..rule },
            ),
            rest@.len() + moved@.len() == author@.len(),
            rest@ == author@.take(rest@.len() as int),
            forall|k: int|
                0 <= k < author@.len() ==> (#[trigger] author@[k]).order <= usize::MAX / 2 + 1,
            forall|k: int|
                0 <= k < moved@.len() ==> (#[trigger] moved@[k])@ == shifted[shifted.len() - 1 - k],
        decreases rest@.len(),
    {
        let ghost n = rest@.len() as int;
        match rest.pop() {
            Some(mut rule) => {
                assert(author@.take(n)[n - 1] == author@[n - 1]);
                assert(author@.take(n).subrange(0, n - 1) =~= author@.take(n - 1));
                rule.order = rule.order + BASE_RULE_COUNT;
                moved.push(rule);
            },
            None => {},
        }
    }
    let ghost reversed = moved@;
    while moved.len() > 0
        invariant
            shifted == models.map_values(
                |rule: RuleModel| RuleModel { order: rule.order + BASE_RULE_COUNT, ..rule },
            ),
            moved@ == reversed.take(moved@.len() as int),
            moved@.len() <= reversed.len(),
            reversed.len() == shifted.len(),
            forall|k: int|
                0 <= k < reversed.len() ==> (#[trigger] reversed[k])@ == shifted[shifted.len() - 1
                    - k],
            rules_of(rules@) == rules_of(base) + shifted.take(reversed.len() - moved@.len()),
        decreases moved@.len(),
    {
        let ghost n = moved@.len() as int;
        let ghost before = rules@;
        match moved.pop() {
            Some(rule) => {
                assert(reversed.take(n)[n - 1] == reversed[n - 1]);
                assert(reversed.take(n).subrange(0, n - 1) =~= reversed.take(n - 1));
                rules.push(rule);
                assert(rules_of(rules@) =~= rules_of(before).push(rule@));
                assert(shifted.take(reversed.len() - n + 1) =~= shifted.take(
                    reversed.len() - n,
                ).push(shifted[reversed.len() - n]));
                assert(rules_of(rules@) =~= rules_of(base) + shifted.take(reversed.len() - n + 1));
            },
            None => {},
        }
    }
    proof {
        assert(shifted.take(reversed.len() as int) =~= shifted);
        assert forall|i: int| 0 <= i < rules_of(rules@).len() implies selector::is_selector(
            (#[trigger] rules_of(rules@)[i]).selector,
        ) by {
            if i >= base.len() {
                let k = i - base.len();
                assert(rules_of(rules@)[i] == shifted[k]);
                assert(models[k].selector == shifted[k].selector);
            }
        }
    }
    rules
}

// -- The cascade ------------------------------------------------------------

/// True when rule `a` stands before rule `b` in the cascade: it is less
/// specific, or as specific and earlier.
pub open spec fn before_in_cascade(a: RuleModel, b: RuleModel) -> bool {
    if a.specificity.ids != b.specificity.ids {
        a.specificity.ids < b.specificity.ids
    } else if a.specificity.classes != b.specificity.classes {
        a.specificity.classes < b.specificity.classes
    } else if a.specificity.tags != b.specificity.tags {
        a.specificity.tags < b.specificity.tags
    } else {
        a.order < b.order
    }
}

fn stands_before(a: &StyleRule, b: &StyleRule) -> (r: bool)
    ensures
        r == before_in_cascade(a@, b@),
{
    if a.specificity.ids != b.specificity.ids {
        a.specificity.ids < b.specificity.ids
    } else if a.specificity.classes != b.specificity.classes {
        a.specificity.classes < b.specificity.classes
    } else if a.specificity.tags != b.specificity.tags {
        a.specificity.tags < b.specificity.tags
    } else {
        a.order < b.order
    }
}

/// Where rule `fresh` goes among the first `k` rules of a cascade: behind
/// every rule that it does not stand before.
pub open spec fn slot(rules: Seq<RuleModel>, cascade: Seq<int>, k: int, fresh: int) -> int
    decreases k,
{
    if 0 < k <= cascade.len() && before_in_cascade(rules[fresh], rules[cascade[k - 1]]) {
        slot(rules, cascade, k - 1, fresh)
    } else {
        k
    }
}

/// The rules among the first `n` that match an element, in cascade order.
pub open spec fn cascade_of(
    tree: Seq<ElementModel>,
    element: int,
    rules: Seq<RuleModel>,
    n: int,
) -> Seq<int>
    decreases n,
{
    if n <= 0 {
        Seq::empty()
    } else {
        let before = cascade_of(tree, element, rules, n - 1);
        if selector::matches(tree, element, rules[n - 1].selector) {
            before.insert(slot(rules, before, before.len() as int, n - 1), n - 1)
        } else {
            before
        }
    }
}

proof fn lemma_slot(rules: Seq<RuleModel>, cascade: Seq<int>, k: int, fresh: int)
    requires
        0 <= k <= cascade.len(),
    ensures
        0 <= slot(rules, cascade, k, fresh) <= k,
        slot(rules, cascade, k, fresh) > 0 ==> !before_in_cascade(
            rules[fresh],
            rules[cascade[slot(rules, cascade, k, fresh) - 1]],
        ),
        forall|j: int|
            slot(rules, cascade, k, fresh) <= j < k ==> before_in_cascade(
                rules[fresh],
                rules[#[trigger] cascade[j]],
            ),
    decreases k,
{
    if 0 < k && before_in_cascade(rules[fresh], rules[cascade[k - 1]]) {
        lemma_slot(rules, cascade, k - 1, fresh);
    }
}

/// A cascade holds exactly the rules that match, each once, and no rule
/// stands in it behind one that it stands before.
pub open spec fn is_cascade(
    tree: Seq<ElementModel>,
    element: int,
    rules: Seq<RuleModel>,
    n: int,
    cascade: Seq<int>,
) -> bool {
    &&& forall|r: int|
        cascade.contains(r) <==> 0 <= r < n && selector::matches(
            tree,
            element,
            (#[trigger] rules[r]).selector,
        )
    &&& cascade.no_duplicates()
    &&& forall|i: int, j: int|
        0 <= i < j < cascade.len() ==> !before_in_cascade(
            rules[#[trigger] cascade[j]],
            rules[#[trigger] cascade[i]],
        )
}

/// The rules that match an element apply in cascade order: each matching
/// rule once, a less specific rule before a more specific one, and an
/// earlier rule before a later one as specific.
pub proof fn law_cascade_is_ordered(
    tree: Seq<ElementModel>,
    element: int,
    rules: Seq<RuleModel>,
    n: int,
)
    requires
        0 <= n <= rules.len(),
    ensures
        is_cascade(tree, element, rules, n, cascade_of(tree, element, rules, n)),
    decreases n,
{
    if n > 0 {
        law_cascade_is_ordered(tree, element, rules, n - 1);
        let before = cascade_of(tree, element, rules, n - 1);
        let fresh = n - 1;
        if selector::matches(tree, element, rules[fresh].selector) {
            let at = slot(rules, before, before.len() as int, fresh);
            lemma_slot(rules, before, before.len() as int, fresh);
            let after = before.insert(at, fresh);
            assert(!before.contains(fresh));
            assert forall|r: int|
                after.contains(r) <==> 0 <= r < n && selector::matches(
                    tree,
                    element,
                    (#[trigger] rules[r]).selector,
                ) by {
                if r == fresh {
                    assert(after[at] == fresh);
                } else {
                    if before.contains(r) {
                        let k = choose|k: int| 0 <= k < before.len() && before[k] == r;
                        if k < at {
                            assert(after[k] == r);
                        } else {
                            assert(after[k + 1] == r);
                        }
                    }
                    if after.contains(r) {
                        let k = choose|k: int| 0 <= k < after.len() && after[k] == r;
                        if k < at {
                            assert(before[k] == r);
                        } else {
                            assert(before[k - 1] == r);
                        }
                    }
                }
            }
            assert forall|i: int, j: int|
                0 <= i < after.len() && 0 <= j < after.len() && i != j implies after[i]
                != after[j] by {
                let bi = if i < at {
                    i
                } else {
                    i - 1
                };
                let bj = if j < at {
                    j
                } else {
                    j - 1
                };
                if i != at {
                    assert(after[i] == before[bi]);
                    assert(before.contains(before[bi]));
                }
                if j != at {
                    assert(after[j] == before[bj]);
                    assert(before.contains(before[bj]));
                }
            }
            assert forall|i: int, j: int| 0 <= i < j < after.len() implies !before_in_cascade(
                rules[#[trigger] after[j]],
                rules[#[trigger] after[i]],
            ) by {
                if j < at {
                    assert(after[i] == before[i] && after[j] == before[j]);
                } else if j == at {
                    assert(after[i] == before[i]);
                    if i < at - 1 {
                        assert(!before_in_cascade(rules[before[at - 1]], rules[before[i]]));
                    }
                } else if i == at {
                    assert(after[j] == before[j - 1]);
                } else if i < at {
                    assert(after[i] == before[i] && after[j] == before[j - 1]);
                } else {
                    assert(after[i] == before[i - 1] && after[j] == before[j - 1]);
                }
            }
        }
    }
}

spec fn int_list(list: Seq<usize>) -> Seq<int> {
    list.map_values(|index: usize| index as int)
}

/// The rules that match an element, by index, in cascade order.
fn matching_rules(tree: &Vec<Element>, element: usize, rules: &Vec<StyleRule>) -> (r: Vec<usize>)
    requires
        dom::is_tree(dom::tree_of(tree@)),
        element < tree@.len(),
        are_rules(rules_of(rules@)),
    ensures
        int_list(r@) == cascade_of(
            dom::tree_of(tree@),
            element as int,
            rules_of(rules@),
            rules@.len() as int,
        ),
        forall|k: int| 0 <= k < r@.len() ==> #[trigger] r@[k] < rules@.len(),
{
    let ghost model = dom::tree_of(tree@);
    let ghost all = rules_of(rules@);
    let mut cascade: Vec<usize> = Vec::new();
    let mut n: usize = 0;
    assert(int_list(cascade@) =~= Seq::<int>::empty());
    while n < rules.len()
        invariant
            n <= rules@.len(),
            model == dom::tree_of(tree@),
            dom::is_tree(model),
            element < tree@.len(),
            all == rules_of(rules@),
            are_rules(all),
            int_list(cascade@) == cascade_of(model, element as int, all, n as int),
            forall|k: int| 0 <= k < cascade@.len() ==> #[trigger] cascade@[k] < n,
        decreases rules@.len() - n,
    {
        assert(all[n as int] == rules@[n as int]@);
        if selector_matches(tree, element, &rules[n].selector) {
            let ghost before = int_list(cascade@);
            let mut at: usize = cascade.len();
            while at > 0
                invariant
                    n < rules@.len(),
                    all == rules_of(rules@),
                    at <= cascade@.len(),
                    before == int_list(cascade@),
                    forall|k: int| 0 <= k < cascade@.len() ==> #[trigger] cascade@[k] < n,
                    slot(all, before, before.len() as int, n as int) == slot(
                        all,
                        before,
                        at as int,
                        n as int,
                    ),
                ensures
                    at <= cascade@.len(),
                    slot(all, before, before.len() as int, n as int) == at,
                decreases at,
            {
                let other = cascade[at - 1];
                assert(before[at - 1] == other as int);
                assert(all[other as int] == rules@[other as int]@);
                assert(all[n as int] == rules@[n as int]@);
                if !stands_before(&rules[n], &rules[other]) {
                    break;
                }
                at -= 1;
            }
            cascade.insert(at, n);
            assert(int_list(cascade@) =~= before.insert(at as int, n as int));
        }
        n += 1;
    }
    cascade
}

// -- Properties -------------------------------------------------------------

/// One property of a merged style.
pub struct PropertyModel {
    pub name: Seq<char>,
    pub value: Seq<char>,
    pub important: bool,
}

struct Property {
    name: Vec<char>,
    value: Vec<char>,
    important: bool,
}

impl View for Property {
    type V = PropertyModel;

    closed spec fn view(&self) -> PropertyModel {
        PropertyModel { name: self.name@, value: self.value@, important: self.important }
    }
}

spec fn properties_of(list: Seq<Property>) -> Seq<PropertyModel> {
    list.map_values(|property: Property| property@)
}

/// The position of the property with this name among the first `k`.
pub open spec fn property_at(properties: Seq<PropertyModel>, name: Seq<char>, k: int) -> Option<
    int,
>
    decreases properties.len() - k,
{
    if !(0 <= k < properties.len()) {
        None
    } else if properties[k].name == name {
        Some(k)
    } else {
        property_at(properties, name, k + 1)
    }
}

/// The property that a declaration sets, when it has a name and a value and
/// moves nothing.
pub open spec fn declared(declaration: Seq<char>) -> Option<PropertyModel> {
    let d = text::trim(declaration);
    match text::find_char_from(d, ':', 0) {
        None => None,
        Some(colon) => {
            let name = text::lower(text::trim(d.subrange(0, colon)));
            let raw = text::trim(d.subrange(colon + 1, d.len() as int));
            let important = text::ends_with(text::lower(raw), "!important"@);
            if name.len() == 0 || raw.len() == 0 || is_motion(name) {
                None
            } else {
                Some(
                    PropertyModel {
                        name,
                        value: if important {
                            text::trim(raw.subrange(0, raw.len() - 10))
                        } else {
                            raw
                        },
                        important,
                    },
                )
            }
        },
    }
}

/// The properties after one more: a later one replaces an earlier one of the
/// same name, unless the earlier alone is important.
pub open spec fn with_property(properties: Seq<PropertyModel>, fresh: PropertyModel) -> Seq<
    PropertyModel,
> {
    match property_at(properties, fresh.name, 0) {
        Some(k) => if fresh.important || !properties[k].important {
            properties.update(
                k,
                PropertyModel { important: fresh.important || properties[k].important, ..fresh },
            )
        } else {
            properties
        },
        None => properties.push(fresh),
    }
}

/// The properties after a list of declarations.
pub open spec fn with_declarations(
    properties: Seq<PropertyModel>,
    parts: Seq<Seq<char>>,
) -> Seq<PropertyModel>
    decreases parts.len(),
{
    if parts.len() == 0 {
        properties
    } else {
        let before = with_declarations(properties, parts.drop_last());
        match declared(parts.last()) {
            Some(fresh) => with_property(before, fresh),
            None => before,
        }
    }
}

/// The properties after the declarations of a text.
pub open spec fn applied(properties: Seq<PropertyModel>, declarations: Seq<char>) -> Seq<
    PropertyModel,
> {
    with_declarations(properties, css::split(declarations, ';'))
}

/// The properties after the declarations of the first `k` rules of a
/// cascade.
pub open spec fn with_rules(
    properties: Seq<PropertyModel>,
    rules: Seq<RuleModel>,
    cascade: Seq<int>,
    k: int,
) -> Seq<PropertyModel>
    decreases k,
{
    if k <= 0 {
        properties
    } else {
        applied(
            with_rules(properties, rules, cascade, k - 1),
            rules[cascade[k - 1]].declarations,
        )
    }
}

/// The theme ground that a top-level element carries.
pub open spec fn ground_style(theme: Theme) -> Seq<char> {
    "background: "@ + markup::css_safe_text(theme.colors.background@) + "; color: "@
        + markup::css_safe_text(theme.colors.text@) + "; font-family: "@ + font_stack(
        theme.fonts.body@,
    )
}

/// True for a top-level element of the fragment.
pub open spec fn is_top_element(tree: Seq<ElementModel>, element: int) -> bool {
    tree[element].parent == 0 && tree[element].tag.len() > 0
}

/// The properties of one element: box-sizing, the ground of a top-level
/// element, the matching rules in cascade order, and its own style attribute
/// with the theme variables resolved.
pub open spec fn properties_for(
    tree: Seq<ElementModel>,
    element: int,
    rules: Seq<RuleModel>,
    theme: Theme,
) -> Seq<PropertyModel> {
    let boxed = applied(Seq::empty(), "box-sizing: border-box"@);
    let grounded = if is_top_element(tree, element) {
        applied(boxed, ground_style(theme))
    } else {
        boxed
    };
    let cascade = cascade_of(tree, element, rules, rules.len() as int);
    let ruled = with_rules(grounded, rules, cascade, cascade.len() as int);
    match dom::value_of(tree[element].attributes, "style"@) {
        Some(own) => applied(ruled, resolved(own, variables_for(theme))),
        None => ruled,
    }
}

/// The properties as they are written: a top-level element has no height.
pub open spec fn written_properties(
    properties: Seq<PropertyModel>,
    drop_height: bool,
) -> Seq<Seq<char>>
    decreases properties.len(),
{
    if properties.len() == 0 {
        Seq::empty()
    } else {
        let before = written_properties(properties.drop_last(), drop_height);
        let last = properties.last();
        if drop_height && last.name == "height"@ {
            before
        } else {
            before.push(last.name + ":"@ + last.value)
        }
    }
}

/// The merged inline style of one element. The root has none.
pub open spec fn style_of(
    tree: Seq<ElementModel>,
    element: int,
    rules: Seq<RuleModel>,
    theme: Theme,
) -> Seq<char> {
    if tree[element].tag.len() == 0 {
        Seq::empty()
    } else {
        text::join(
            written_properties(
                properties_for(tree, element, rules, theme),
                is_top_element(tree, element),
            ),
            ";"@,
        )
    }
}

/// True when no two properties have one name.
pub open spec fn are_distinct(properties: Seq<PropertyModel>) -> bool {
    forall|j: int, k: int|
        0 <= j < k < properties.len() ==> (#[trigger] properties[j]).name != (
        #[trigger] properties[k]).name
}

proof fn lemma_property_at(properties: Seq<PropertyModel>, name: Seq<char>, from: int)
    requires
        0 <= from,
    ensures
        match property_at(properties, name, from) {
            Some(k) => from <= k < properties.len() && properties[k].name == name,
            None => forall|k: int|
                from <= k < properties.len() ==> (#[trigger] properties[k]).name != name,
        },
    decreases properties.len() - from,
{
    if from < properties.len() && properties[from].name != name {
        lemma_property_at(properties, name, from + 1);
    }
}

proof fn lemma_declarations_are_distinct(properties: Seq<PropertyModel>, parts: Seq<Seq<char>>)
    requires
        are_distinct(properties),
    ensures
        are_distinct(with_declarations(properties, parts)),
    decreases parts.len(),
{
    if parts.len() > 0 {
        lemma_declarations_are_distinct(properties, parts.drop_last());
        let before = with_declarations(properties, parts.drop_last());
        if let Some(fresh) = declared(parts.last()) {
            lemma_property_at(before, fresh.name, 0);
        }
    }
}

proof fn lemma_rules_are_distinct(
    properties: Seq<PropertyModel>,
    rules: Seq<RuleModel>,
    cascade: Seq<int>,
    k: int,
)
    requires
        are_distinct(properties),
    ensures
        are_distinct(with_rules(properties, rules, cascade, k)),
    decreases k,
{
    if k > 0 {
        lemma_rules_are_distinct(properties, rules, cascade, k - 1);
        lemma_declarations_are_distinct(
            with_rules(properties, rules, cascade, k - 1),
            css::split(rules[cascade[k - 1]].declarations, ';'),
        );
    }
}

/// A merged style sets each property once, whatever the rules say.
pub proof fn law_a_property_is_set_once(
    tree: Seq<ElementModel>,
    element: int,
    rules: Seq<RuleModel>,
    theme: Theme,
)
    ensures
        are_distinct(properties_for(tree, element, rules, theme)),
{
    let none = Seq::<PropertyModel>::empty();
    lemma_declarations_are_distinct(none, css::split("box-sizing: border-box"@, ';'));
    let boxed = applied(none, "box-sizing: border-box"@);
    lemma_declarations_are_distinct(boxed, css::split(ground_style(theme), ';'));
    let grounded = if is_top_element(tree, element) {
        applied(boxed, ground_style(theme))
    } else {
        boxed
    };
    let cascade = cascade_of(tree, element, rules, rules.len() as int);
    lemma_rules_are_distinct(grounded, rules, cascade, cascade.len() as int);
    let ruled = with_rules(grounded, rules, cascade, cascade.len() as int);
    if let Some(own) = dom::value_of(tree[element].attributes, "style"@) {
        lemma_declarations_are_distinct(
            ruled,
            css::split(resolved(own, variables_for(theme)), ';'),
        );
    }
}

/// True when none of the properties moves an element.
pub open spec fn are_still(properties: Seq<PropertyModel>) -> bool {
    forall|k: int| 0 <= k < properties.len() ==> !is_motion((#[trigger] properties[k]).name)
}

proof fn lemma_declarations_are_still(properties: Seq<PropertyModel>, parts: Seq<Seq<char>>)
    requires
        are_still(properties),
    ensures
        are_still(with_declarations(properties, parts)),
    decreases parts.len(),
{
    if parts.len() > 0 {
        lemma_declarations_are_still(properties, parts.drop_last());
        let before = with_declarations(properties, parts.drop_last());
        if let Some(fresh) = declared(parts.last()) {
            lemma_property_at(before, fresh.name, 0);
        }
    }
}

proof fn lemma_rules_are_still(
    properties: Seq<PropertyModel>,
    rules: Seq<RuleModel>,
    cascade: Seq<int>,
    k: int,
)
    requires
        are_still(properties),
    ensures
        are_still(with_rules(properties, rules, cascade, k)),
    decreases k,
{
    if k > 0 {
        lemma_rules_are_still(properties, rules, cascade, k - 1);
        lemma_declarations_are_still(
            with_rules(properties, rules, cascade, k - 1),
            css::split(rules[cascade[k - 1]].declarations, ';'),
        );
    }
}

/// No element is animated, whatever the rules and its style attribute say.
pub proof fn law_no_element_is_animated(
    tree: Seq<ElementModel>,
    element: int,
    rules: Seq<RuleModel>,
    theme: Theme,
)
    ensures
        are_still(properties_for(tree, element, rules, theme)),
{
    let none = Seq::<PropertyModel>::empty();
    lemma_declarations_are_still(none, css::split("box-sizing: border-box"@, ';'));
    let boxed = applied(none, "box-sizing: border-box"@);
    lemma_declarations_are_still(boxed, css::split(ground_style(theme), ';'));
    let grounded = if is_top_element(tree, element) {
        applied(boxed, ground_style(theme))
    } else {
        boxed
    };
    let cascade = cascade_of(tree, element, rules, rules.len() as int);
    lemma_rules_are_still(grounded, rules, cascade, cascade.len() as int);
    let ruled = with_rules(grounded, rules, cascade, cascade.len() as int);
    if let Some(own) = dom::value_of(tree[element].attributes, "style"@) {
        lemma_declarations_are_still(
            ruled,
            css::split(resolved(own, variables_for(theme)), ';'),
        );
    }
}

/// An important value stays over every later declaration that is not
/// important, a style attribute's among them.
pub proof fn law_an_important_value_stays(
    properties: Seq<PropertyModel>,
    parts: Seq<Seq<char>>,
    k: int,
)
    requires
        are_distinct(properties),
        0 <= k < properties.len(),
        properties[k].important,
        forall|i: int|
            0 <= i < parts.len() ==> (declared(#[trigger] parts[i]) matches Some(property)
                ==> !property.important),
    ensures
        k < with_declarations(properties, parts).len(),
        with_declarations(properties, parts)[k] == properties[k],
    decreases parts.len(),
{
    if parts.len() > 0 {
        let rest = parts.drop_last();
        assert forall|i: int| 0 <= i < rest.len() implies (declared(#[trigger] rest[i]) matches Some(
            property,
        ) ==> !property.important) by {
            assert(rest[i] == parts[i]);
        }
        law_an_important_value_stays(properties, rest, k);
        let before = with_declarations(properties, rest);
        assert(parts.last() == parts[parts.len() - 1]);
        if let Some(fresh) = declared(parts.last()) {
            lemma_property_at(before, fresh.name, 0);
        }
    }
}

/// A top-level element is written without a height.
pub proof fn law_a_top_element_has_no_height(properties: Seq<PropertyModel>)
    ensures
        written_properties(properties, true) == written_properties(
            properties.filter(|property: PropertyModel| property.name != "height"@),
            false,
        ),
    decreases properties.len(),
{
    reveal(Seq::filter);
    let has_other_name = |property: PropertyModel| property.name != "height"@;
    if properties.len() > 0 {
        law_a_top_element_has_no_height(properties.drop_last());
        let shorter = properties.drop_last().filter(has_other_name);
        if has_other_name(properties.last()) {
            assert(properties.filter(has_other_name) == shorter.push(properties.last()));
            assert(shorter.push(properties.last()).drop_last() =~= shorter);
        }
    }
}

fn read_declaration(declaration: &[char]) -> (r: Option<Property>)
    ensures
        match r {
            Some(property) => declared(declaration@) == Some(property@),
            None => declared(declaration@) is None,
        },
{
    let d = trimmed(declaration);
    let length: usize = d.len();
    let Some(colon) = find_char(&d, ':', 0) else {
        return None;
    };
    let name = to_lower(&trimmed(&part(&d, 0, colon)));
    let raw = trimmed(&part(&d, colon + 1, length));
    if name.len() == 0 || raw.len() == 0 || moves(&name) {
        return None;
    }
    let important = text::finishes_with(&to_lower(&raw), "!important");
    proof {
        reveal_strlit("!important");
    }
    let value = if important {
        trimmed(&part(&raw, 0, raw.len() - 10))
    } else {
        raw
    };
    Some(Property { name, value, important })
}

fn set_property(properties: &mut Vec<Property>, fresh: Property)
    ensures
        properties_of(final(properties)@) == with_property(
            properties_of(old(properties)@),
            fresh@,
        ),
{
    let ghost all = properties_of(properties@);
    let ghost name = fresh.name@;
    let ghost model = fresh@;
    let mut k: usize = 0;
    while k < properties.len()
        invariant
            k <= properties@.len(),
            *properties == *old(properties),
            all == properties_of(properties@),
            name == fresh.name@,
            model == fresh@,
            property_at(all, name, 0) == property_at(all, name, k as int),
        decreases properties@.len() - k,
    {
        assert(all[k as int] == properties@[k as int]@);
        if same_chars(&properties[k].name, &fresh.name) {
            let was = properties[k].important;
            if fresh.important || !was {
                let important = fresh.important || was;
                properties.set(k, Property { name: fresh.name, value: fresh.value, important });
                assert(properties_of(properties@) =~= all.update(
                    k as int,
                    PropertyModel { important, ..model },
                ));
            }
            return;
        }
        k += 1;
    }
    properties.push(fresh);
    assert(properties_of(properties@) =~= all.push(model));
}

fn apply_declarations(properties: &mut Vec<Property>, declarations: &str)
    ensures
        properties_of(final(properties)@) == applied(
            properties_of(old(properties)@),
            declarations@,
        ),
{
    let parts = split_top_level(&chars_of(declarations), ';');
    let ghost all = text::texts(parts@);
    let ghost start = properties_of(properties@);
    let mut i: usize = 0;
    assert(all.take(0) =~= Seq::<Seq<char>>::empty());
    while i < parts.len()
        invariant
            i <= parts@.len(),
            all == text::texts(parts@),
            properties_of(properties@) == with_declarations(start, all.take(i as int)),
        decreases parts@.len() - i,
    {
        assert(all.take(i + 1).drop_last() =~= all.take(i as int));
        assert(all.take(i + 1).last() == parts@[i as int]@);
        if let Some(fresh) = read_declaration(&parts[i]) {
            set_property(properties, fresh);
        }
        i += 1;
    }
    assert(all.take(i as int) =~= all);
}

/// The merged inline style of one element: later declarations win per
/// property, and important declarations win over the others.
pub fn merged_style(
    tree: &Vec<Element>,
    element: usize,
    rules: &Vec<StyleRule>,
    theme: &Theme,
) -> (r: String)
    requires
        dom::is_tree(dom::tree_of(tree@)),
        element < tree@.len(),
        are_rules(rules_of(rules@)),
    ensures
        r@ == style_of(dom::tree_of(tree@), element as int, rules_of(rules@), *theme),
{
    let ghost model = dom::tree_of(tree@);
    let ghost all = rules_of(rules@);
    assert(model[element as int] == tree@[element as int]@);
    if tree[element].tag.as_str().is_empty() {
        return String::new();
    }
    let top = tree[element].parent == 0;
    let mut properties: Vec<Property> = Vec::new();
    assert(properties_of(properties@) =~= Seq::<PropertyModel>::empty());
    apply_declarations(&mut properties, "box-sizing: border-box");
    if top {
        let mut ground = owned("background: ");
        ground.append(css_safe(theme.colors.background.as_str()).as_str());
        ground.append("; color: ");
        ground.append(css_safe(theme.colors.text.as_str()).as_str());
        ground.append("; font-family: ");
        ground.append(font_value(theme.fonts.body.as_str()).as_str());
        apply_declarations(&mut properties, ground.as_str());
    }
    let ghost grounded = properties_of(properties@);
    let cascade = matching_rules(tree, element, rules);
    let ghost order = int_list(cascade@);
    let mut k: usize = 0;
    while k < cascade.len()
        invariant
            k <= cascade@.len(),
            all == rules_of(rules@),
            order == int_list(cascade@),
            forall|j: int| 0 <= j < cascade@.len() ==> #[trigger] cascade@[j] < rules@.len(),
            properties_of(properties@) == with_rules(grounded, all, order, k as int),
        decreases cascade@.len() - k,
    {
        let index = cascade[k];
        assert(order[k as int] == index as int);
        assert(all[index as int] == rules@[index as int]@);
        apply_declarations(&mut properties, rules[index].declarations.as_str());
        k += 1;
    }
    if let Some(own) = attribute_value(&tree[element], "style") {
        let literal = resolve_variables(own.as_str(), &theme_variables(theme));
        apply_declarations(&mut properties, literal.as_str());
    }
    let ghost merged = properties_of(properties@);
    assert(merged == properties_for(model, element as int, all, *theme));
    let mut list: Vec<Vec<char>> = Vec::new();
    let mut i: usize = 0;
    assert(text::texts(list@) =~= written_properties(merged.take(0), top));
    while i < properties.len()
        invariant
            i <= properties@.len(),
            merged == properties_of(properties@),
            text::texts(list@) == written_properties(merged.take(i as int), top),
        decreases properties@.len() - i,
    {
        assert(merged.take(i + 1).drop_last() =~= merged.take(i as int));
        assert(merged.take(i + 1).last() == properties@[i as int]@);
        let property = &properties[i];
        if !(top && spells(&property.name, "height")) {
            let ghost before = list@;
            let mut line = part(&property.name, 0, property.name.len());
            text::extend_chars(&mut line, &chars_of(":"));
            text::extend_chars(&mut line, &property.value);
            assert(line@ =~= property@.name + ":"@ + property@.value);
            list.push(line);
            assert(text::texts(list@) =~= text::texts(before).push(line@));
        }
        i += 1;
    }
    assert(merged.take(i as int) =~= merged);
    text_of(&text::joined(&list, ";"))
}

// -- What wins in the cascade -------------------------------------------------

/// What the properties say of one name.
pub open spec fn set_in(properties: Seq<PropertyModel>, name: Seq<char>) -> Option<PropertyModel> {
    match property_at(properties, name, 0) {
        Some(k) => Some(properties[k]),
        None => None,
    }
}

/// True when a declaration sets the property.
pub open spec fn is_setting(declaration: Seq<char>, name: Seq<char>) -> bool {
    match declared(declaration) {
        Some(property) => property.name == name,
        None => false,
    }
}

/// True when a declaration sets the property and is important.
pub open spec fn is_insisting(declaration: Seq<char>, name: Seq<char>) -> bool {
    match declared(declaration) {
        Some(property) => property.name == name && property.important,
        None => false,
    }
}

/// True when a block sets the property.
pub open spec fn sets(block: Seq<char>, name: Seq<char>) -> bool {
    exists|k: int|
        0 <= k < css::split(block, ';').len() && #[trigger] is_setting(
            css::split(block, ';')[k],
            name,
        )
}

/// True when a block sets the property with an important declaration.
pub open spec fn insists(block: Seq<char>, name: Seq<char>) -> bool {
    exists|k: int|
        0 <= k < css::split(block, ';').len() && #[trigger] is_insisting(
            css::split(block, ';')[k],
            name,
        )
}

/// True when the properties hold no important value for the name.
pub open spec fn is_open(properties: Seq<PropertyModel>, name: Seq<char>) -> bool {
    match set_in(properties, name) {
        Some(property) => !property.important,
        None => true,
    }
}

/// True when declaration `i` of a block is the one that speaks last for its
/// property in the block: no later one sets it, and no earlier one is
/// important where it is not.
pub open spec fn is_decisive(block: Seq<char>, i: int, property: PropertyModel) -> bool {
    let parts = css::split(block, ';');
    &&& 0 <= i < parts.len()
    &&& declared(parts[i]) == Some(property)
    &&& forall|j: int| i < j < parts.len() ==> !is_setting(#[trigger] parts[j], property.name)
    &&& property.important || forall|j: int|
        0 <= j < i ==> !is_insisting(#[trigger] parts[j], property.name)
}

proof fn lemma_property_is_first(properties: Seq<PropertyModel>, name: Seq<char>, from: int)
    requires
        0 <= from,
    ensures
        property_at(properties, name, from) matches Some(k) ==> forall|j: int|
            from <= j < k ==> (#[trigger] properties[j]).name != name,
    decreases properties.len() - from,
{
    if from < properties.len() && properties[from].name != name {
        lemma_property_is_first(properties, name, from + 1);
    }
}

proof fn lemma_first_property(properties: Seq<PropertyModel>, name: Seq<char>, from: int, k: int)
    requires
        0 <= from <= k <= properties.len(),
        k < properties.len() ==> properties[k].name == name,
        forall|j: int| from <= j < k ==> (#[trigger] properties[j]).name != name,
    ensures
        property_at(properties, name, from) == if k < properties.len() {
            Some(k)
        } else {
            None::<int>
        },
    decreases k - from,
{
    if from < k {
        assert(properties[from].name != name);
        lemma_first_property(properties, name, from + 1, k);
    }
}

proof fn lemma_set_in(properties: Seq<PropertyModel>, fresh: PropertyModel, name: Seq<char>)
    ensures
        fresh.name != name ==> set_in(with_property(properties, fresh), name) == set_in(
            properties,
            name,
        ),
        fresh.name == name && (fresh.important || is_open(properties, name)) ==> (set_in(
            with_property(properties, fresh),
            name,
        ) matches Some(now) && now.value == fresh.value && (now.important ==> fresh.important || !is_open(properties, name))),
        fresh.name == name && !fresh.important && is_open(properties, name) ==> is_open(
            with_property(properties, fresh),
            name,
        ),
{
    let after = with_property(properties, fresh);
    lemma_property_at(properties, fresh.name, 0);
    lemma_property_at(properties, name, 0);
    lemma_property_is_first(properties, fresh.name, 0);
    lemma_property_is_first(properties, name, 0);
    match property_at(properties, name, 0) {
        Some(k) => {
            assert forall|j: int| 0 <= j < k implies (#[trigger] after[j]).name != name by {
                assert(properties[j].name != name);
            }
            lemma_first_property(after, name, 0, k);
        },
        None => {
            let k = if fresh.name == name {
                properties.len() as int
            } else {
                after.len() as int
            };
            assert forall|j: int| 0 <= j < k implies (#[trigger] after[j]).name != name by {
                if j < properties.len() {
                    assert(properties[j].name != name);
                }
            }
            lemma_first_property(after, name, 0, k);
        },
    }
}

proof fn lemma_not_set(properties: Seq<PropertyModel>, parts: Seq<Seq<char>>, name: Seq<char>)
    requires
        forall|j: int| 0 <= j < parts.len() ==> !is_setting(#[trigger] parts[j], name),
    ensures
        set_in(with_declarations(properties, parts), name) == set_in(properties, name),
    decreases parts.len(),
{
    if parts.len() > 0 {
        let rest = parts.drop_last();
        assert forall|j: int| 0 <= j < rest.len() implies !is_setting(#[trigger] rest[j], name) by {
            assert(rest[j] == parts[j]);
        }
        lemma_not_set(properties, rest, name);
        assert(!is_setting(parts[parts.len() - 1], name));
        if let Some(fresh) = declared(parts.last()) {
            lemma_set_in(with_declarations(properties, rest), fresh, name);
        }
    }
}

proof fn lemma_stays_open(properties: Seq<PropertyModel>, parts: Seq<Seq<char>>, name: Seq<char>)
    requires
        is_open(properties, name),
        forall|j: int| 0 <= j < parts.len() ==> !is_insisting(#[trigger] parts[j], name),
    ensures
        is_open(with_declarations(properties, parts), name),
    decreases parts.len(),
{
    if parts.len() > 0 {
        let rest = parts.drop_last();
        assert forall|j: int| 0 <= j < rest.len() implies !is_insisting(
            #[trigger] rest[j],
            name,
        ) by {
            assert(rest[j] == parts[j]);
        }
        lemma_stays_open(properties, rest, name);
        assert(!is_insisting(parts[parts.len() - 1], name));
        if let Some(fresh) = declared(parts.last()) {
            lemma_set_in(with_declarations(properties, rest), fresh, name);
        }
    }
}

proof fn lemma_decided(
    properties: Seq<PropertyModel>,
    parts: Seq<Seq<char>>,
    i: int,
    property: PropertyModel,
)
    requires
        0 <= i < parts.len(),
        declared(parts[i]) == Some(property),
        forall|j: int| i < j < parts.len() ==> !is_setting(#[trigger] parts[j], property.name),
        property.important || is_open(properties, property.name),
        property.important || forall|j: int|
            0 <= j < i ==> !is_insisting(#[trigger] parts[j], property.name),
    ensures
        set_in(with_declarations(properties, parts), property.name) matches Some(now) && now.value
            == property.value,
    decreases parts.len(),
{
    let rest = parts.drop_last();
    let before = with_declarations(properties, rest);
    if i == parts.len() - 1 {
        if !property.important {
            assert forall|j: int| 0 <= j < rest.len() implies !is_insisting(
                #[trigger] rest[j],
                property.name,
            ) by {
                assert(rest[j] == parts[j]);
            }
            lemma_stays_open(properties, rest, property.name);
        }
        lemma_set_in(before, property, property.name);
    } else {
        assert(rest[i] == parts[i]);
        assert forall|j: int| i < j < rest.len() implies !is_setting(
            #[trigger] rest[j],
            property.name,
        ) by {
            assert(rest[j] == parts[j]);
        }
        if !property.important {
            assert forall|j: int| 0 <= j < i implies !is_insisting(
                #[trigger] rest[j],
                property.name,
            ) by {
                assert(rest[j] == parts[j]);
            }
        }
        lemma_decided(properties, rest, i, property);
        assert(!is_setting(parts[parts.len() - 1], property.name));
        if let Some(fresh) = declared(parts.last()) {
            lemma_set_in(before, fresh, property.name);
        }
    }
}

proof fn lemma_rules_not_setting(
    properties: Seq<PropertyModel>,
    rules: Seq<RuleModel>,
    cascade: Seq<int>,
    from: int,
    to: int,
    name: Seq<char>,
)
    requires
        0 <= from <= to,
        forall|j: int|
            from <= j < to ==> !sets(rules[#[trigger] cascade[j]].declarations, name),
    ensures
        set_in(with_rules(properties, rules, cascade, to), name) == set_in(
            with_rules(properties, rules, cascade, from),
            name,
        ),
    decreases to - from,
{
    if from < to {
        lemma_rules_not_setting(properties, rules, cascade, from, to - 1, name);
        let block = rules[cascade[to - 1]].declarations;
        assert(!sets(block, name));
        lemma_not_set(
            with_rules(properties, rules, cascade, to - 1),
            css::split(block, ';'),
            name,
        );
    }
}

proof fn lemma_rules_not_insisting(
    properties: Seq<PropertyModel>,
    rules: Seq<RuleModel>,
    cascade: Seq<int>,
    k: int,
    name: Seq<char>,
)
    requires
        is_open(properties, name),
        forall|j: int| 0 <= j < k ==> !insists(rules[#[trigger] cascade[j]].declarations, name),
    ensures
        is_open(with_rules(properties, rules, cascade, k), name),
    decreases k,
{
    if k > 0 {
        lemma_rules_not_insisting(properties, rules, cascade, k - 1, name);
        let block = rules[cascade[k - 1]].declarations;
        assert(!insists(block, name));
        lemma_stays_open(
            with_rules(properties, rules, cascade, k - 1),
            css::split(block, ';'),
            name,
        );
    }
}

/// A block without an exclamation mark insists on nothing.
proof fn lemma_calm_block(block: Seq<char>, name: Seq<char>)
    requires
        !block.contains('!'),
    ensures
        !insists(block, name),
{
    reveal_strlit("!important");
    let parts = css::split(block, ';');
    assert forall|k: int| 0 <= k < parts.len() implies !#[trigger] is_insisting(parts[k], name) by {
        css::law_split_then_join(block, ';');
        text::lemma_join_holds(parts, seq![';'], k);
        let at = choose|at: int| #[trigger] text::stands_at(block, parts[k], at);
        let d = text::trim(parts[k]);
        if let Some(colon) = text::find_char_from(d, ':', 0) {
            text::lemma_find_char_from(d, ':', 0);
            let tail = d.subrange(colon + 1, d.len() as int);
            let raw = text::trim(tail);
            if text::ends_with(text::lower(raw), "!important"@) {
                text::law_trimming_takes_white_space_alone(parts[k]);
                text::law_trimming_takes_white_space_alone(tail);
                let c = raw[raw.len() - 10];
                let low = text::lower(raw);
                assert(low.subrange(low.len() - 10, low.len() as int)[0] == '!');
                assert(low[raw.len() - 10] == text::lower_char(c));
                assert(tail.contains('!'));
                assert(d.contains('!'));
                assert(parts[k].contains('!'));
                assert(block.contains('!'));
            }
        }
    }
}

proof fn lemma_base_is_open(
    tree: Seq<ElementModel>,
    element: int,
    theme: Theme,
    name: Seq<char>,
)
    requires
        !is_top_element(tree, element) || !insists(ground_style(theme), name),
    ensures
        ({
            let boxed = applied(Seq::empty(), "box-sizing: border-box"@);
            let grounded = if is_top_element(tree, element) {
                applied(boxed, ground_style(theme))
            } else {
                boxed
            };
            is_open(grounded, name)
        }),
{
    reveal_strlit("box-sizing: border-box");
    let none = Seq::<PropertyModel>::empty();
    let boxed = applied(none, "box-sizing: border-box"@);
    lemma_first_property(none, name, 0, 0);
    lemma_calm_block("box-sizing: border-box"@, name);
    lemma_stays_open(none, css::split("box-sizing: border-box"@, ';'), name);
    if is_top_element(tree, element) {
        lemma_stays_open(boxed, css::split(ground_style(theme), ';'), name);
    }
}

proof fn lemma_written_property(properties: Seq<PropertyModel>, drop_height: bool, k: int)
    requires
        0 <= k < properties.len(),
        !drop_height || properties[k].name != "height"@,
    ensures
        written_properties(properties, drop_height).contains(
            properties[k].name + ":"@ + properties[k].value,
        ),
    decreases properties.len(),
{
    let written = properties[k].name + ":"@ + properties[k].value;
    let rest = properties.drop_last();
    let before = written_properties(rest, drop_height);
    let all = written_properties(properties, drop_height);
    if k == properties.len() - 1 {
        assert(all[all.len() - 1] == written);
    } else {
        assert(rest[k] == properties[k]);
        lemma_written_property(rest, drop_height, k);
        let at = choose|at: int| 0 <= at < before.len() && before[at] == written;
        assert(all[at] == written);
    }
}

proof fn lemma_style_holds(
    tree: Seq<ElementModel>,
    element: int,
    rules: Seq<RuleModel>,
    theme: Theme,
    name: Seq<char>,
)
    requires
        tree[element].tag.len() > 0,
        set_in(properties_for(tree, element, rules, theme), name) is Some,
        !is_top_element(tree, element) || name != "height"@,
    ensures
        ({
            let now = set_in(properties_for(tree, element, rules, theme), name)->0;
            text::holds(style_of(tree, element, rules, theme), name + ":"@ + now.value)
        }),
{
    let properties = properties_for(tree, element, rules, theme);
    let top = is_top_element(tree, element);
    lemma_property_at(properties, name, 0);
    let k = property_at(properties, name, 0)->0;
    lemma_written_property(properties, top, k);
    let written = written_properties(properties, top);
    let at = choose|at: int|
        0 <= at < written.len() && written[at] == name + ":"@ + properties[k].value;
    text::lemma_join_holds(written, ";"@, at);
}

/// An element gets what its strongest rule says: a property that a matching
/// rule sets last, with every other matching rule that sets it before that
/// one in the cascade, and with nothing more important said elsewhere, has
/// that rule's value, and the merged style says so.
pub proof fn law_the_strongest_rule_sets_the_property(
    tree: Seq<ElementModel>,
    element: int,
    rules: Seq<RuleModel>,
    theme: Theme,
    r: int,
    i: int,
    property: PropertyModel,
)
    requires
        0 <= r < rules.len(),
        selector::is_selector(rules[r].selector),
        selector::matches(tree, element, rules[r].selector),
        is_decisive(rules[r].declarations, i, property),
        forall|other: int|
            0 <= other < rules.len() && other != r && selector::matches(
                tree,
                element,
                (#[trigger] rules[other]).selector,
            ) && sets(rules[other].declarations, property.name) ==> before_in_cascade(
                rules[other],
                rules[r],
            ) && (property.important || !insists(rules[other].declarations, property.name)),
        is_top_element(tree, element) ==> property.important || !insists(
            ground_style(theme),
            property.name,
        ),
        dom::value_of(tree[element].attributes, "style"@) matches Some(own) ==> !sets(
            resolved(own, variables_for(theme)),
            property.name,
        ),
    ensures
        set_in(properties_for(tree, element, rules, theme), property.name) matches Some(now)
            && now.value == property.value,
        !is_top_element(tree, element) || property.name != "height"@ ==> text::holds(
            style_of(tree, element, rules, theme),
            property.name + ":"@ + property.value,
        ),
{
    let name = property.name;
    let n = rules.len() as int;
    let cascade = cascade_of(tree, element, rules, n);
    law_cascade_is_ordered(tree, element, rules, n);
    let boxed = applied(Seq::empty(), "box-sizing: border-box"@);
    let grounded = if is_top_element(tree, element) {
        applied(boxed, ground_style(theme))
    } else {
        boxed
    };
    assert(rules[r].selector == rules[r].selector);
    assert(cascade.contains(r));
    let at = choose|at: int| 0 <= at < cascade.len() && cascade[at] == r;
    let block = rules[r].declarations;
    if !property.important {
        lemma_base_is_open(tree, element, theme, name);
        assert forall|j: int| 0 <= j < at implies !insists(
            rules[#[trigger] cascade[j]].declarations,
            name,
        ) by {
            let other = cascade[j];
            assert(cascade.contains(other));
            assert(rules[other].selector == rules[other].selector);
            assert(other != r);
            if insists(rules[other].declarations, name) {
                let parts = css::split(rules[other].declarations, ';');
                let k = choose|k: int|
                    0 <= k < parts.len() && #[trigger] is_insisting(parts[k], name);
                assert(is_setting(parts[k], name));
                assert(sets(rules[other].declarations, name));
            }
        }
        lemma_rules_not_insisting(grounded, rules, cascade, at, name);
    }
    let before = with_rules(grounded, rules, cascade, at);
    lemma_decided(before, css::split(block, ';'), i, property);
    assert forall|j: int| at + 1 <= j < cascade.len() implies !sets(
        rules[#[trigger] cascade[j]].declarations,
        name,
    ) by {
        let other = cascade[j];
        assert(cascade.contains(other));
        assert(rules[other].selector == rules[other].selector);
        assert(other != r);
        assert(!before_in_cascade(rules[cascade[j]], rules[cascade[at]]));
    }
    let length = cascade.len() as int;
    lemma_rules_not_setting(grounded, rules, cascade, at + 1, length, name);
    let ruled = with_rules(grounded, rules, cascade, length);
    if let Some(own) = dom::value_of(tree[element].attributes, "style"@) {
        let text = resolved(own, variables_for(theme));
        assert(!sets(text, name));
        lemma_not_set(ruled, css::split(text, ';'), name);
    }
    if !is_top_element(tree, element) || name != "height"@ {
        lemma_style_holds(tree, element, rules, theme, name);
    }
}

/// An element's own style attribute says the last word: a property that it
/// sets, with no more important rule that matches, has its value, and the
/// merged style says so.
pub proof fn law_the_own_style_says_the_last_word(
    tree: Seq<ElementModel>,
    element: int,
    rules: Seq<RuleModel>,
    theme: Theme,
    own: Seq<char>,
    i: int,
    property: PropertyModel,
)
    requires
        tree[element].tag.len() > 0,
        dom::value_of(tree[element].attributes, "style"@) == Some(own),
        is_decisive(resolved(own, variables_for(theme)), i, property),
        property.important || forall|r: int|
            0 <= r < rules.len() && selector::matches(
                tree,
                element,
                (#[trigger] rules[r]).selector,
            ) ==> !insists(rules[r].declarations, property.name),
        is_top_element(tree, element) ==> property.important || !insists(
            ground_style(theme),
            property.name,
        ),
    ensures
        set_in(properties_for(tree, element, rules, theme), property.name) matches Some(now)
            && now.value == property.value,
        !is_top_element(tree, element) || property.name != "height"@ ==> text::holds(
            style_of(tree, element, rules, theme),
            property.name + ":"@ + property.value,
        ),
{
    let name = property.name;
    let n = rules.len() as int;
    let cascade = cascade_of(tree, element, rules, n);
    law_cascade_is_ordered(tree, element, rules, n);
    let boxed = applied(Seq::empty(), "box-sizing: border-box"@);
    let grounded = if is_top_element(tree, element) {
        applied(boxed, ground_style(theme))
    } else {
        boxed
    };
    let length = cascade.len() as int;
    if !property.important {
        lemma_base_is_open(tree, element, theme, name);
        assert forall|j: int| 0 <= j < length implies !insists(
            rules[#[trigger] cascade[j]].declarations,
            name,
        ) by {
            let other = cascade[j];
            assert(cascade.contains(other));
            assert(rules[other].selector == rules[other].selector);
        }
        lemma_rules_not_insisting(grounded, rules, cascade, length, name);
    }
    let ruled = with_rules(grounded, rules, cascade, length);
    lemma_decided(ruled, css::split(resolved(own, variables_for(theme)), ';'), i, property);
    if !is_top_element(tree, element) || name != "height"@ {
        lemma_style_holds(tree, element, rules, theme, name);
    }
}

/// No selector of a rule is lost: one that can be inlined gives a rule with
/// the rule's declarations, and every other one stands in the fallback list.
pub proof fn law_every_selector_is_kept(
    selectors: Seq<Seq<char>>,
    declarations: Seq<char>,
    order: int,
    k: int,
)
    requires
        0 <= k < selectors.len(),
    ensures
        match selector::selector_of(selectors[k]) {
            Some(parsed) => exists|r: int|
                0 <= r < inlined(selectors, declarations, order).len() && (#[trigger] inlined(
                    selectors,
                    declarations,
                    order,
                )[r]).selector == parsed && inlined(selectors, declarations, order)[r].declarations
                    == declarations,
            None => unsupported(selectors).contains(text::trim(selectors[k])),
        },
    decreases selectors.len(),
{
    let rest = selectors.drop_last();
    let rules = inlined(selectors, declarations, order);
    let others = unsupported(selectors);
    if k == selectors.len() - 1 {
        match selector::selector_of(selectors[k]) {
            Some(parsed) => {
                assert(rules[rules.len() - 1].selector == parsed);
            },
            None => {
                assert(others[others.len() - 1] == text::trim(selectors[k]));
            },
        }
    } else {
        assert(rest[k] == selectors[k]);
        law_every_selector_is_kept(rest, declarations, order, k);
        let rules_before = inlined(rest, declarations, order);
        let others_before = unsupported(rest);
        match selector::selector_of(selectors[k]) {
            Some(parsed) => {
                let r = choose|r: int|
                    0 <= r < rules_before.len() && (#[trigger] rules_before[r]).selector == parsed
                        && rules_before[r].declarations == declarations;
                assert(rules[r] == rules_before[r]);
            },
            None => {
                let at = choose|at: int|
                    0 <= at < others_before.len() && others_before[at] == text::trim(selectors[k]);
                assert(others[at] == others_before[at]);
            },
        }
    }
}

/// True when no rule of the list has a smaller number than one before it.
pub open spec fn are_numbered(rules: Seq<RuleModel>) -> bool {
    forall|j: int, k: int|
        0 <= j < k < rules.len() ==> (#[trigger] rules[j]).order <= (#[trigger] rules[k]).order
}

proof fn lemma_orders_rise(s: Seq<char>, i: int, sheet: SheetModel, variables: Seq<VariableModel>)
    requires
        0 <= i,
        are_numbered(sheet.rules),
        forall|k: int|
            0 <= k < sheet.rules.len() ==> (#[trigger] sheet.rules[k]).order < sheet.order,
    ensures
        are_numbered(sheet_from(s, i, sheet, variables).rules),
    decreases s.len() - i,
{
    if text::skip_space(s, i) < s.len() {
        css::lemma_prelude_end(s, i, css::top_level());
        if let Some(e) = css::prelude_end(s, i) {
            if s[e] == ';' {
                lemma_orders_rise(s, e + 1, sheet, variables);
                assert(sheet_from(s, i, sheet, variables) == sheet_from(
                    s,
                    e + 1,
                    sheet,
                    variables,
                ));
            } else {
                css::lemma_block_end(s, e + 1, 0, None);
                if let Some(b) = css::block_end(s, e + 1) {
                    let prelude = text::trim(s.subrange(i, e));
                    let body = s.subrange(e + 1, b);
                    lemma_orders(sheet, prelude, body, variables);
                    let next = with_rule(sheet, prelude, body, variables);
                    assert forall|j: int, k: int| 0 <= j < k < next.rules.len() implies (
                    #[trigger] next.rules[j]).order <= (#[trigger] next.rules[k]).order by {
                        if k < sheet.rules.len() {
                            assert(sheet.rules[j].order <= sheet.rules[k].order);
                        } else if j < sheet.rules.len() {
                            assert(sheet.rules[j].order < sheet.order);
                        }
                    }
                    assert forall|k: int| 0 <= k < next.rules.len() implies (
                    #[trigger] next.rules[k]).order < next.order by {
                        if k < sheet.rules.len() {
                            assert(sheet.rules[k].order < sheet.order);
                        }
                    }
                    lemma_orders_rise(s, b + 1, next, variables);
                    assert(sheet_from(s, i, sheet, variables) == sheet_from(
                        s,
                        b + 1,
                        next,
                        variables,
                    ));
                } else {
                    assert(sheet_from(s, i, sheet, variables) == sheet);
                }
            }
        } else {
            assert(sheet_from(s, i, sheet, variables) == sheet);
        }
    } else {
        assert(sheet_from(s, i, sheet, variables) == sheet);
    }
}

/// The rules of a stylesheet are numbered as they stand in it, so that of two
/// equally specific ones the later one has its way.
pub proof fn law_rules_are_numbered_in_order(s: Seq<char>, variables: Seq<VariableModel>)
    ensures
        are_numbered(sheet_of(s, variables).rules),
{
    lemma_orders_rise(
        css::uncommented(s),
        0,
        SheetModel { rules: Seq::empty(), fallback: Seq::empty(), order: 1 },
        variables,
    );
}

/// The author's rules stand behind the base rules of the same specificity.
pub proof fn law_the_author_overrules_the_base(
    author: Seq<RuleModel>,
    theme: Theme,
    b: int,
    a: int,
)
    requires
        0 <= b < BASE_RULE_COUNT,
        0 <= a < author.len(),
        author[a].order >= 0,
        author[a].specificity == base_rules_for(theme)[b].specificity,
    ensures
        ({
            let rules = all_rules_for(author, theme);
            &&& rules.len() == BASE_RULE_COUNT + author.len()
            &&& rules[BASE_RULE_COUNT + a].selector == author[a].selector
            &&& rules[BASE_RULE_COUNT + a].declarations == author[a].declarations
            &&& before_in_cascade(rules[b], rules[BASE_RULE_COUNT + a])
        }),
{
}

/// A variable of the theme is put in place of its `var()`, with the text
/// around it kept.
pub proof fn law_a_variable_gets_its_value(
    before: Seq<char>,
    name: Seq<char>,
    after: Seq<char>,
    value: Seq<char>,
    variables: Seq<VariableModel>,
)
    requires
        text::find(before, "var("@) is None,
        text::find(after, "var("@) is None,
        css::split(name, ',') == seq![name],
        text::trim(name) == name,
        !name.contains('('),
        !name.contains(')'),
        lookup(variables, name) == Some(value),
        text::find(before + value + after, "var("@) is None,
    ensures
        resolved(before + "var("@ + name + ")"@ + after, variables) == before + value + after,
{
    reveal_strlit("var(");
    reveal_strlit(")");
    let s = before + "var("@ + name + ")"@ + after;
    let p = before.len() as int;
    let e = p + 4 + name.len();
    assert(s.subrange(p, p + 4) =~= "var("@);
    assert(text::stands_at(s, "var("@, p));
    assert forall|j: int| 0 <= j < p implies !#[trigger] text::stands_at(s, "var("@, j) by {
        if text::stands_at(s, "var("@, j) {
            assert(s.subrange(j, j + 4)[3] == '(');
            assert(s[j + 3] == '(');
            if j + 4 <= p {
                assert(before.subrange(j, j + 4) =~= s.subrange(j, j + 4));
                assert(text::stands_at(before, "var("@, j));
                text::lemma_find_from(before, "var("@, 0);
            } else {
                assert(s[j + 3] == "var("@[j + 3 - p]);
            }
        }
    }
    text::lemma_find_from(s, "var("@, 0);
    assert(text::find_from(s, "var("@, 0) == Some(p));
    assert(s[e] == ')');
    assert forall|j: int| p + 4 <= j < e implies s[j] != '(' && s[j] != ')' by {
        assert(s[j] == name[j - p - 4]);
    }
    lemma_closes_at(s, p + 4, e);
    assert(s.subrange(p + 4, e) =~= name);
    assert(replacement(name, variables) == Some(value));
    assert forall|j: int| e + 1 <= j implies !#[trigger] text::stands_at(s, "var("@, j) by {
        if text::stands_at(s, "var("@, j) {
            let k = j - e - 1;
            assert(after.subrange(k, k + 4) =~= s.subrange(j, j + 4));
            assert(text::stands_at(after, "var("@, k));
            text::lemma_find_from(after, "var("@, 0);
        }
    }
    text::lemma_find_from(s, "var("@, e + 1);
    assert(text::find_from(s, "var("@, e + 1) is None);
    assert(s.subrange(e + 1, s.len() as int) =~= after);
    assert(s.subrange(0, p) =~= before);
    assert(pass_from(s, e + 1, variables) == (after, false));
    assert(pass_from(s, 0, variables) == (before + value + after, true));
    let next = before + value + after;
    assert(pass_from(next, 0, variables).1 == false);
    assert(resolved_in(next, variables, 2) == next);
}

proof fn lemma_closes_at(s: Seq<char>, i: int, e: int)
    requires
        0 <= i <= e < s.len(),
        s[e] == ')',
        forall|j: int| i <= j < e ==> s[j] != '(' && s[j] != ')',
    ensures
        closing(s, i, 1) == Some(e),
    decreases e - i,
{
    if i < e {
        lemma_closes_at(s, i + 1, e);
    }
}

proof fn lemma_trimmed_stays(s: Seq<char>)
    requires
        s.len() > 0,
        !text::is_space(s.first()),
        !text::is_space(s.last()),
    ensures
        text::trim(s) == s,
{
}

/// A declaration sets the property it names, in lower case, to the value it
/// writes; `!important` is taken off the value and remembered.
pub proof fn law_a_declaration_is_read(name: Seq<char>, value: Seq<char>)
    requires
        name.len() > 0,
        !name.contains(':'),
        !text::is_space(name.first()),
        !text::is_space(name.last()),
        !is_motion(text::lower(name)),
        value.len() > 0,
        !text::is_space(value.first()),
        !text::is_space(value.last()),
        !text::ends_with(text::lower(value), "!important"@),
    ensures
        declared(name + ":"@ + value) == Some(
            PropertyModel { name: text::lower(name), value, important: false },
        ),
        declared(name + ":"@ + value + "!important"@) == Some(
            PropertyModel { name: text::lower(name), value, important: true },
        ),
{
    reveal_strlit(":");
    reveal_strlit("!important");
    lemma_trimmed_stays(name);
    lemma_trimmed_stays(value);
    let n = name.len() as int;
    let plain = name + ":"@ + value;
    lemma_trimmed_stays(plain);
    lemma_colon_at(plain, n);
    assert(plain.subrange(0, n) =~= name);
    assert(plain.subrange(n + 1, plain.len() as int) =~= value);
    let raw = value + "!important"@;
    let marked = plain + "!important"@;
    assert(marked.last() == 't');
    assert(marked.first() == name.first());
    assert(raw.last() == 't');
    assert(raw.first() == value.first());
    lemma_trimmed_stays(marked);
    lemma_trimmed_stays(raw);
    lemma_colon_at(marked, n);
    assert(marked.subrange(0, n) =~= name);
    assert(marked.subrange(n + 1, marked.len() as int) =~= raw);
    let low = text::lower(raw);
    assert(low.subrange(low.len() - 10, low.len() as int) =~= "!important"@);
    assert(raw.subrange(0, raw.len() - 10) =~= value);
}

proof fn lemma_colon_at(s: Seq<char>, n: int)
    requires
        0 <= n < s.len(),
        s[n] == ':',
        forall|k: int| 0 <= k < n ==> s[k] != ':',
    ensures
        text::find_char_from(s, ':', 0) == Some(n),
{
    text::lemma_find_char_from(s, ':', 0);
}

/// A plain rule of a stylesheet is taken up where it stands, and the reading
/// goes on behind it.
pub proof fn law_a_rule_is_taken_up(
    before: Seq<char>,
    prelude: Seq<char>,
    body: Seq<char>,
    rest: Seq<char>,
    sheet: SheetModel,
    variables: Seq<VariableModel>,
)
    requires
        css::is_flat(prelude),
        !prelude.contains('{'),
        !prelude.contains(';'),
        css::is_flat(body),
        !body.contains('{'),
        !body.contains('}'),
    ensures
        ({
            let s = before + prelude + seq!['{'] + body + seq!['}'] + rest;
            let from = before.len() as int;
            let behind = from + prelude.len() + 1 + body.len() + 1;
            sheet_from(s, from, sheet, variables) == sheet_from(
                s,
                behind,
                with_rule(sheet, text::trim(prelude), body, variables),
                variables,
            )
        }),
{
    let s = before + prelude + seq!['{'] + body + seq!['}'] + rest;
    let from = before.len() as int;
    let open = from + prelude.len();
    css::law_a_rule_is_read_as_written(before, prelude, body, rest);
    assert(s[open] == '{');
    text::lemma_skip_space(s, from);
    assert(text::skip_space(s, from) < s.len()) by {
        if text::skip_space(s, from) >= s.len() {
            lemma_all_space(s, from);
            assert(text::is_space(s[open]));
        }
    }
}

proof fn lemma_all_space(s: Seq<char>, from: int)
    requires
        0 <= from <= s.len(),
        text::skip_space(s, from) >= s.len(),
    ensures
        forall|k: int| from <= k < s.len() ==> text::is_space(#[trigger] s[k]),
    decreases s.len() - from,
{
    if from < s.len() {
        lemma_all_space(s, from + 1);
    }
}

/// A plain rule adds its declarations under each of its selectors, and takes
/// nothing away: one that can be inlined becomes a rule, and the others are
/// written to the fallback with the declarations.
pub proof fn law_a_plain_rule_adds_its_declarations(
    sheet: SheetModel,
    prelude: Seq<char>,
    body: Seq<char>,
    variables: Seq<VariableModel>,
    k: int,
)
    requires
        !is_at_rule(prelude),
        !body.contains('{'),
        cleaned(resolved(body, variables)).len() > 0,
        0 <= k < css::split(prelude, ',').len(),
    ensures
        ({
            let after = with_rule(sheet, prelude, body, variables);
            let declarations = cleaned(resolved(body, variables));
            &&& sheet.rules.len() <= after.rules.len()
            &&& after.rules.take(sheet.rules.len() as int) == sheet.rules
            &&& text::starts_with(after.fallback, sheet.fallback)
            &&& match selector::selector_of(css::split(prelude, ',')[k]) {
                Some(parsed) => exists|r: int|
                    sheet.rules.len() <= r < after.rules.len() && (
                    #[trigger] after.rules[r]).selector == parsed && after.rules[r].declarations
                        == declarations,
                None => text::holds(
                    after.fallback,
                    text::trim(css::split(prelude, ',')[k]),
                ) && text::holds(after.fallback, "{"@ + declarations + "}\n"@),
            }
        }),
{
    let after = with_rule(sheet, prelude, body, variables);
    let declarations = cleaned(resolved(body, variables));
    let selectors = css::split(prelude, ',');
    let fresh = inlined(selectors, declarations, sheet.order);
    let others = unsupported(selectors);
    assert(after.rules.take(sheet.rules.len() as int) =~= sheet.rules);
    assert(after.fallback.subrange(0, sheet.fallback.len() as int) =~= sheet.fallback);
    law_every_selector_is_kept(selectors, declarations, sheet.order, k);
    match selector::selector_of(selectors[k]) {
        Some(parsed) => {
            let r = choose|r: int|
                0 <= r < fresh.len() && (#[trigger] fresh[r]).selector == parsed
                    && fresh[r].declarations == declarations;
            assert(after.rules[sheet.rules.len() + r] == fresh[r]);
        },
        None => {
            let own = text::trim(selectors[k]);
            let at = choose|at: int| 0 <= at < others.len() && others[at] == own;
            let list = text::join(others, ", "@);
            text::lemma_join_holds(others, ", "@, at);
            let block = "{"@ + declarations + "}\n"@;
            let rule = written_rule(list, declarations);
            assert(rule =~= list + block);
            text::lemma_holds_appended(list, block);
            assert(text::holds(list, own));
            assert(text::holds(list + block, own));
            text::lemma_holds_appended(sheet.fallback, rule);
            text::lemma_holds_inside(after.fallback, rule, own);
            text::lemma_holds_inside(after.fallback, rule, block);
        },
    }
}

/// The declarations that an email keeps stand in a block as they were
/// written, in order.
pub proof fn law_other_declarations_are_kept(parts: Seq<Seq<char>>, k: int)
    requires
        0 <= k < parts.len(),
        is_kept(text::trim(parts[k])),
    ensures
        kept(parts).contains(text::trim(parts[k])),
        kept(parts).len() <= parts.len(),
        kept(parts.take(k)).len() < kept(parts).len(),
        kept(parts)[kept(parts.take(k)).len() as int] == text::trim(parts[k]),
    decreases parts.len(),
{
    let rest = parts.drop_last();
    let before = kept(rest);
    lemma_kept_is_shorter(rest);
    if k == parts.len() - 1 {
        assert(parts.take(k) =~= rest);
        assert(kept(parts)[before.len() as int] == text::trim(parts[k]));
    } else {
        assert(rest[k] == parts[k]);
        assert(rest.take(k) =~= parts.take(k));
        law_other_declarations_are_kept(rest, k);
        let at = kept(parts.take(k)).len() as int;
        assert(kept(parts)[at] == before[at]);
    }
}

proof fn lemma_kept_is_shorter(parts: Seq<Seq<char>>)
    ensures
        kept(parts).len() <= parts.len(),
    decreases parts.len(),
{
    if parts.len() > 0 {
        lemma_kept_is_shorter(parts.drop_last());
    }
}

/// Each theme variable has the value of its part of the theme.
pub proof fn law_theme_variables_have_their_values(theme: Theme)
    ensures
        ({
            let value = |name: Seq<char>| lookup(variables_for(theme), name);
            let safe = |s: Seq<char>| Some(markup::css_safe_text(s));
            &&& value("--background"@) == safe(theme.colors.background@)
            &&& value("--text"@) == safe(theme.colors.text@)
            &&& value("--accent"@) == safe(theme.colors.accent@)
            &&& value("--muted"@) == safe(theme.colors.muted@)
            &&& value("--heading-font"@) == Some(font_stack(theme.fonts.heading@))
            &&& value("--body-font"@) == Some(font_stack(theme.fonts.body@))
            &&& value("--mono-font"@) == Some(mono_stack(theme.fonts.mono@))
        }),
{
    reveal_strlit("--background");
    reveal_strlit("--text");
    reveal_strlit("--accent");
    reveal_strlit("--muted");
    reveal_strlit("--heading-font");
    reveal_strlit("--body-font");
    reveal_strlit("--mono-font");
    assert("--accent"@[2] == 'a' && "--muted"@[2] == 'm' && "--text"@[2] == 't');
    assert("--mono-font"@[2] == 'm' && "--body-font"@[2] == 'b' && "--background"@[2] == 'b');
    assert("--background"@.len() == 12 && "--text"@.len() == 6 && "--accent"@.len() == 8);
    assert("--muted"@.len() == 7 && "--heading-font"@.len() == 14);
    assert("--body-font"@.len() == 11 && "--mono-font"@.len() == 11);
    assert("--body-font"@ != "--mono-font"@);
    let all = variables_for(theme);
    assert(all[0].name == "--background"@ && all[1].name == "--text"@ && all[2].name
        == "--accent"@);
    assert(all[3].name == "--muted"@ && all[4].name == "--heading-font"@);
    assert(all[5].name == "--body-font"@ && all[6].name == "--mono-font"@);
    lemma_lookup_at(all, 0);
    lemma_lookup_at(all, 1);
    lemma_lookup_at(all, 2);
    lemma_lookup_at(all, 3);
    lemma_lookup_at(all, 4);
    assert forall|j: int| 0 <= j < 5 implies (#[trigger] all[j]).name != all[5].name by {
        assert(j == 0 || j == 1 || j == 2 || j == 3 || j == 4);
    }
    lemma_lookup_at(all, 5);
    assert forall|j: int| 0 <= j < 6 implies (#[trigger] all[j]).name != all[6].name by {
        assert(j == 0 || j == 1 || j == 2 || j == 3 || j == 4 || j == 5);
    }
    lemma_lookup_at(all, 6);
}

proof fn lemma_lookup_at(variables: Seq<VariableModel>, k: int)
    requires
        0 <= k < variables.len(),
        forall|j: int| 0 <= j < k ==> (#[trigger] variables[j]).name != variables[k].name,
    ensures
        lookup(variables, variables[k].name) == Some(variables[k].value),
    decreases k,
{
    if k > 0 {
        assert(variables[0].name != variables[k].name);
        let rest = variables.drop_first();
        assert(rest[k - 1] == variables[k]);
        assert forall|j: int| 0 <= j < k - 1 implies (#[trigger] rest[j]).name != rest[k - 1].name by {
            assert(rest[j] == variables[j + 1]);
        }
        lemma_lookup_at(rest, k - 1);
    }
}

/// The base rules show the theme: headings in the heading font, code in the
/// mono font, and links in the accent color.
pub proof fn law_base_rules_show_the_theme(theme: Theme, k: int)
    requires
        0 <= k < 6,
    ensures
        text::holds(
            base_rules_for(theme)[k].declarations,
            markup::css_safe_text(theme.fonts.heading@),
        ),
        text::holds(
            base_rules_for(theme)[14].declarations,
            markup::css_safe_text(theme.fonts.mono@),
        ),
        text::holds(
            base_rules_for(theme)[15].declarations,
            markup::css_safe_text(theme.fonts.mono@),
        ),
        text::ends_with(
            base_rules_for(theme)[16].declarations,
            markup::css_safe_text(theme.colors.accent@),
        ),
        text::holds(ground_style(theme), markup::css_safe_text(theme.colors.background@)),
        text::holds(ground_style(theme), markup::css_safe_text(theme.colors.text@)),
        text::holds(ground_style(theme), markup::css_safe_text(theme.fonts.body@)),
{
    let heading = markup::css_safe_text(theme.fonts.heading@);
    let mono = markup::css_safe_text(theme.fonts.mono@);
    let body = markup::css_safe_text(theme.fonts.body@);
    let accent = markup::css_safe_text(theme.colors.accent@);
    let ground = markup::css_safe_text(theme.colors.background@);
    let ink = markup::css_safe_text(theme.colors.text@);
    let quote = "'"@;
    let stack = "', Inter, system-ui, sans-serif"@;
    let monos = "', ui-monospace, monospace"@;
    let family = "font-family: "@;
    let more = "; line-height: 1.1; margin: 0; letter-spacing: -0.02em"@;
    text::lemma_holds_itself(family + quote, heading, stack + more);
    assert(family + quote + heading + (stack + more) =~= heading_style(theme));
    text::lemma_holds_itself(family + quote, mono, monos);
    assert(family + quote + mono + monos =~= code_style(theme));
    let link = link_style(theme);
    assert(link.subrange(link.len() - accent.len(), link.len() as int) =~= accent);
    let open = "background: "@;
    let middle = "; color: "@;
    let last = "; font-family: "@;
    text::lemma_holds_itself(open, ground, middle + ink + last + quote + body + stack);
    assert(open + ground + (middle + ink + last + quote + body + stack) =~= ground_style(theme));
    text::lemma_holds_itself(open + ground + middle, ink, last + quote + body + stack);
    assert(open + ground + middle + ink + (last + quote + body + stack) =~= ground_style(theme));
    text::lemma_holds_itself(open + ground + middle + ink + last + quote, body, stack);
    assert(open + ground + middle + ink + last + quote + body + stack =~= ground_style(theme));
}

/// An at-rule that an email keeps goes to the fallback with its prelude, and
/// with its block without the motion in it.
pub proof fn law_an_at_rule_goes_to_the_fallback(
    sheet: SheetModel,
    prelude: Seq<char>,
    body: Seq<char>,
    variables: Seq<VariableModel>,
)
    requires
        is_at_rule(prelude),
        text::find(prelude, "var("@) is None,
        text::find(body, "var("@) is None,
    ensures
        ({
            let after = with_rule(sheet, prelude, body, variables);
            &&& after.rules == sheet.rules
            &&& is_keyframes(prelude) ==> after.fallback == sheet.fallback
            &&& !is_keyframes(prelude) ==> after.fallback == sheet.fallback + (prelude + "{"@
                + stilled(body) + "}\n"@)
        }),
{
    law_text_without_variables_is_kept(prelude, variables);
    law_text_without_variables_is_kept(body, variables);
}

proof fn lemma_prelude_moved(s: Seq<char>, rest: Seq<char>, i: int, n: css::Nesting)
    requires
        0 <= i,
        rest.len() <= s.len(),
        s.skip(s.len() - rest.len()) == rest,
    ensures
        css::prelude_end_from(s, s.len() - rest.len() + i, n) == match css::prelude_end_from(
            rest,
            i,
            n,
        ) {
            Some(e) => Some(s.len() - rest.len() + e),
            None => None,
        },
    decreases rest.len() - i,
{
    if i < rest.len() {
        assert(s[s.len() - rest.len() + i] == rest[i]);
        lemma_prelude_moved(s, rest, i + 1, css::nest(n, rest[i]));
    }
}

proof fn lemma_block_moved(s: Seq<char>, rest: Seq<char>, i: int, open: int, quote: Option<char>)
    requires
        0 <= i,
        rest.len() <= s.len(),
        s.skip(s.len() - rest.len()) == rest,
    ensures
        css::block_end_from(s, s.len() - rest.len() + i, open, quote) == match css::block_end_from(
            rest,
            i,
            open,
            quote,
        ) {
            Some(e) => Some(s.len() - rest.len() + e),
            None => None,
        },
    decreases rest.len() - i,
{
    if i < rest.len() {
        assert(s[s.len() - rest.len() + i] == rest[i]);
        lemma_block_moved(s, rest, i + 1, open, quote);
        lemma_block_moved(s, rest, i + 1, open, None);
        lemma_block_moved(s, rest, i + 1, open, Some(rest[i]));
        lemma_block_moved(s, rest, i + 1, open + 1, None);
        lemma_block_moved(s, rest, i + 1, open - 1, None);
    }
}

proof fn lemma_stilled_moved(s: Seq<char>, rest: Seq<char>, i: int)
    requires
        0 <= i,
        rest.len() <= s.len(),
        s.skip(s.len() - rest.len()) == rest,
    ensures
        stilled_from(s, s.len() - rest.len() + i) == stilled_from(rest, i),
    decreases rest.len() - i,
{
    let d = s.len() - rest.len();
    if i < rest.len() {
        lemma_prelude_moved(s, rest, i, css::top_level());
        css::lemma_prelude_end(rest, i, css::top_level());
        match css::prelude_end(rest, i) {
            None => {
                assert(s.subrange(d + i, s.len() as int) =~= rest.subrange(i, rest.len() as int));
            },
            Some(e) => {
                assert(s[d + e] == rest[e]);
                assert(s.subrange(d + i, d + e + 1) =~= rest.subrange(i, e + 1));
                assert(s.subrange(d + i, d + e) =~= rest.subrange(i, e));
                if rest[e] == ';' {
                    lemma_stilled_moved(s, rest, e + 1);
                } else {
                    lemma_block_moved(s, rest, e + 1, 0, None);
                    css::lemma_block_end(rest, e + 1, 0, None);
                    if let Some(b) = css::block_end(rest, e + 1) {
                        assert(s.subrange(d + e + 1, d + b) =~= rest.subrange(e + 1, b));
                        lemma_stilled_moved(s, rest, b + 1);
                    }
                }
            },
        }
    }
}

/// A block loses the declarations that move something, and keeps the others
/// as they are written, in order.
pub proof fn law_a_block_loses_its_motion_alone(declaration: Seq<char>, rest: Seq<char>)
    requires
        css::is_flat(declaration),
        !declaration.contains(';'),
        !declaration.contains('{'),
        declaration.len() > 0,
    ensures
        ({
            let written = declaration + seq![';'];
            stilled(written + rest) == if is_motion(property_of(text::trim(written))) {
                stilled(rest)
            } else {
                written + stilled(rest)
            }
        }),
{
    let written = declaration + seq![';'];
    let s = written + rest;
    let n = declaration.len() as int;
    assert(s[n] == ';');
    assert forall|k: int| 0 <= k < n implies {
        let c = #[trigger] s[k];
        c != '"' && c != '\'' && c != '(' && c != ')' && c != '[' && c != ']' && c != '{' && c
            != ';'
    } by {
        assert(s[k] == declaration[k]);
    }
    lemma_prelude_stops(s, 0, n);
    assert(s.subrange(0, n + 1) =~= written);
    assert(s.skip(n + 1) =~= rest);
    lemma_stilled_moved(s, rest, 0);
    assert(Seq::<char>::empty() + stilled(rest) =~= stilled(rest));
}

proof fn lemma_prelude_stops(s: Seq<char>, i: int, e: int)
    requires
        0 <= i <= e < s.len(),
        s[e] == ';',
        forall|k: int|
            i <= k < e ==> {
                let c = #[trigger] s[k];
                c != '"' && c != '\'' && c != '(' && c != ')' && c != '[' && c != ']' && c != '{'
                    && c != ';'
            },
    ensures
        css::prelude_end_from(s, i, css::top_level()) == Some(e),
    decreases e - i,
{
    if i < e {
        assert(s[i] != ';');
        assert(css::nest(css::top_level(), s[i]) == css::top_level());
        lemma_prelude_stops(s, i + 1, e);
    }
}

} // verus!
