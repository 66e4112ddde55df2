use vstd::prelude::*;

verus! {

/// One kind of text styling that an element puts in scope.
#[derive(Clone, Copy, Debug, PartialEq, Eq, Structural)]
pub enum TextStyling {
    Bold,
    Italic,
    Underline,
    Link,
}

/// The colour of the underline that marks a hyperlink's label.
pub const LINK_UNDERLINE_RGB: (u8, u8, u8) = (0, 0, 255);

/// The effects that a chain of scopes adds up to.
#[derive(Clone, Copy, Debug)]
pub struct StyleFlags {
    pub bold: bool,
    pub italic: bool,
    pub underline: bool,
    pub underline_color: Option<(u8, u8, u8)>,
}

/// Whether the chain of scopes holds a scope of the given kind.
pub open spec fn has_styling(scopes: Seq<TextStyling>, k: TextStyling) -> bool {
    exists|i: int| 0 <= i < scopes.len() && scopes[i] == k
}

/// The style that a chain of scopes composes to: every kind in scope sets its
/// effects, a link sets the underline and its colour.
pub open spec fn flags_of(scopes: Seq<TextStyling>) -> StyleFlags {
    StyleFlags {
        bold: has_styling(scopes, TextStyling::Bold),
        italic: has_styling(scopes, TextStyling::Italic),
        underline: has_styling(scopes, TextStyling::Underline) || has_styling(
            scopes,
            TextStyling::Link,
        ),
        underline_color: if has_styling(scopes, TextStyling::Link) {
            Some(LINK_UNDERLINE_RGB)
        } else {
            None
        },
    }
}

/// Whether the style sets nothing.
pub open spec fn is_plain(f: StyleFlags) -> bool {
    !f.bold && !f.italic && !f.underline && f.underline_color is None
}

/// The decimal digit `d`.
pub open spec fn digit_char(d: u8) -> char {
    if d == 0 {
        '0'
    } else if d == 1 {
        '1'
    } else if d == 2 {
        '2'
    } else if d == 3 {
        '3'
    } else if d == 4 {
        '4'
    } else if d == 5 {
        '5'
    } else if d == 6 {
        '6'
    } else if d == 7 {
        '7'
    } else if d == 8 {
        '8'
    } else {
        '9'
    }
}

/// `n` in decimal, without leading zeros.
pub open spec fn decimal(n: u8) -> Seq<char> {
    if n >= 100 {
        seq![digit_char(n / 100), digit_char((n / 10) % 10), digit_char(n % 10)]
    } else if n >= 10 {
        seq![digit_char(n / 10), digit_char(n % 10)]
    } else {
        seq![digit_char(n)]
    }
}

/// The escape sequence that starts the style `f`: the code of each effect
/// it sets (bold, italic, underline, in that order), then the underline
/// colour as a 24-bit colour. A plain style starts with nothing.
pub open spec fn start_of(f: StyleFlags) -> Seq<char> {
    (if f.bold {
        "\x1b[1m"@
    } else {
        Seq::<char>::empty()
    }) + (if f.italic {
        "\x1b[3m"@
    } else {
        Seq::<char>::empty()
    }) + (if f.underline {
        "\x1b[4m"@
    } else {
        Seq::<char>::empty()
    }) + match f.underline_color {
        Some(rgb) => "\x1b[58;2;"@ + decimal(rgb.0) + ";"@ + decimal(rgb.1) + ";"@ + decimal(
            rgb.2,
        ) + "m"@,
        None => Seq::<char>::empty(),
    }
}

/// The escape sequence that ends the style `f`: nothing for a plain style,
/// else the reset code.
pub open spec fn reset_of(f: StyleFlags) -> Seq<char> {
    if is_plain(f) {
        seq![]
    } else {
        seq!['\x1b', '[', '0', 'm']
    }
}

/// `text` wrapped in the escape sequences of the style `f`.
pub open spec fn styled(f: StyleFlags, text: Seq<char>) -> Seq<char> {
    start_of(f) + text + reset_of(f)
}

/// Relies on anstyle::Style::render: it writes the code of each effect in
/// the order of anstyle's effect table (bold, italic, underline), then the
/// underline colour as `ESC [58;2;r;g;bm` with the components in decimal.
#[verifier::external_body]
fn render_style_start(f: StyleFlags) -> (r: String)
    ensures
        r@ == start_of(f),
{
    let effects = anstyle::Effects::new()
        .set(anstyle::Effects::BOLD, f.bold)
        .set(anstyle::Effects::ITALIC, f.italic)
        .set(anstyle::Effects::UNDERLINE, f.underline);
    let color = f.underline_color.map(|(r, g, b)| anstyle::Color::Rgb(anstyle::RgbColor(r, g, b)));
    anstyle::Style::new().effects(effects).underline_color(color).render().to_string()
}

/// Relies on anstyle::Style::render_reset: the reset code `ESC [0m`, elided
/// for a plain style.
#[verifier::external_body]
fn render_style_reset(f: StyleFlags) -> (r: String)
    ensures
        r@ == reset_of(f),
{
    let effects = anstyle::Effects::new()
        .set(anstyle::Effects::BOLD, f.bold)
        .set(anstyle::Effects::ITALIC, f.italic)
        .set(anstyle::Effects::UNDERLINE, f.underline);
    let color = f.underline_color.map(|(r, g, b)| anstyle::Color::Rgb(anstyle::RgbColor(r, g, b)));
    anstyle::Style::new().effects(effects).underline_color(color).render_reset().to_string()
}

/// Appends `text` wrapped in the escape sequences of the style `f`.
pub fn write_styled(f: StyleFlags, text: &str, out: &mut String)
    ensures
        final(out)@ == old(out)@ + styled(f, text@),
{
    let start = render_style_start(f);
    let reset = render_style_reset(f);
    out.append(start.as_str());
    out.append(text);
    out.append(reset.as_str());
}

/// The chain of style scopes that are in force, outermost first.
pub struct TextStyle {
    scopes: Vec<TextStyling>,
}

impl TextStyle {
    /// The scopes in force, outermost first.
    pub closed spec fn view(&self) -> Seq<TextStyling> {
        self.scopes@
    }

    /// An empty chain: no styling in force.
    pub fn new() -> (r: Self)
        ensures
            r.view() == Seq::<TextStyling>::empty(),
    {
        TextStyle { scopes: Vec::new() }
    }

    /// Opens a scope inside those in force.
    pub fn push(&mut self, k: TextStyling)
        ensures
            final(self).view() == old(self).view().push(k),
    {
        self.scopes.push(k);
    }

    /// Closes the innermost scope, if any.
    pub fn pop(&mut self)
        ensures
            old(self).view().len() > 0 ==> final(self).view() == old(self).view().drop_last(),
            old(self).view().len() == 0 ==> final(self).view() == old(self).view(),
    {
        let _ = self.scopes.pop();
    }

    /// Composes the scopes in force into one style.
    pub fn get_style(&self) -> (r: StyleFlags)
        ensures
            r == flags_of(self.view()),
    {
        let mut bold = false;
        let mut italic = false;
        let mut underline = false;
        let mut link = false;
        let n = self.scopes.len();
        let mut i: usize = 0;
        while i < n
            invariant
                n == self.scopes@.len(),
                i <= n,
                bold == has_styling(self.scopes@.take(i as int), TextStyling::Bold),
                italic == has_styling(self.scopes@.take(i as int), TextStyling::Italic),
                underline == has_styling(self.scopes@.take(i as int), TextStyling::Underline),
                link == has_styling(self.scopes@.take(i as int), TextStyling::Link),
            decreases n - i,
        {
            let ghost s = self.scopes@;
            assert(s.take(i + 1) == s.take(i as int).push(s[i as int]));
            match self.scopes[i] {
                TextStyling::Bold => bold = true,
                TextStyling::Italic => italic = true,
                TextStyling::Underline => underline = true,
                TextStyling::Link => link = true,
            }
            i = i + 1;
            proof {
                lemma_has_styling_push(s.take(i - 1), s[i - 1], TextStyling::Bold);
                lemma_has_styling_push(s.take(i - 1), s[i - 1], TextStyling::Italic);
                lemma_has_styling_push(s.take(i - 1), s[i - 1], TextStyling::Underline);
                lemma_has_styling_push(s.take(i - 1), s[i - 1], TextStyling::Link);
            }
        }
        assert(self.scopes@.take(n as int) == self.scopes@);
        StyleFlags {
            bold,
            italic,
            underline: underline || link,
            underline_color: if link {
                Some(LINK_UNDERLINE_RGB)
            } else {
                None
            },
        }
    }
}

/// Opening one more scope adds its kind to those in force.
pub(crate) proof fn lemma_has_styling_push(s: Seq<TextStyling>, x: TextStyling, k: TextStyling)
    ensures
        has_styling(s.push(x), k) == (has_styling(s, k) || x == k),
{
    if has_styling(s, k) {
        let i = choose|i: int| 0 <= i < s.len() && s[i] == k;
        assert(s.push(x)[i] == k);
    }
    if x == k {
        assert(s.push(x)[s.len() as int] == k);
    }
    if has_styling(s.push(x), k) {
        let i = choose|i: int| 0 <= i < s.push(x).len() && s.push(x)[i] == k;
        if i < s.len() {
            assert(s[i] == k);
        }
    }
}

/// The composed style depends only on which kinds are in scope: the order
/// of the scopes and how often a kind repeats do not matter.
pub proof fn lemma_flags_depend_on_kinds_only(a: Seq<TextStyling>, b: Seq<TextStyling>)
    requires
        a.to_set() == b.to_set(),
    ensures
        flags_of(a) == flags_of(b),
{
    assert forall|k: TextStyling| has_styling(a, k) == has_styling(b, k) by {
        if has_styling(a, k) {
            let i = choose|i: int| 0 <= i < a.len() && a[i] == k;
            assert(a.to_set().contains(a[i]));
            assert(b.to_set().contains(k));
        }
        if has_styling(b, k) {
            let i = choose|i: int| 0 <= i < b.len() && b[i] == k;
            assert(b.to_set().contains(b[i]));
            assert(a.to_set().contains(k));
        }
    }
}

} // verus!
