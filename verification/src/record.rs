//! One dependency of a package version, and its canonical text.

use vstd::prelude::*;
use vstd::string::*;
use crate::text::{texts, joined, line_feed, join, push_line};

verus! {

/// What a dependency is needed for: for use, for development only, or for
/// the build.
#[derive(Clone, Copy, Debug, PartialEq, Eq, Structural)]
pub enum DependencyKind {
    Normal,
    Dev,
    Build,
}

/// One dependency of a package version, as the registry records it.
#[derive(Clone, Debug)]
pub struct DependencyRecord {
    /// The name under which the dependency is used; records are keyed by it.
    pub name: String,
    /// The range of versions that is accepted.
    pub requirement: String,
    /// The features that are switched on, in the order of the record.
    pub features: Vec<String>,
    /// The package behind the name, where the dependency is renamed.
    pub package: Option<String>,
    pub kind: DependencyKind,
    /// The registry that holds the dependency, where it is not the default one.
    pub registry: Option<String>,
    /// The platform to which the dependency is limited.
    pub target: Option<String>,
    pub optional: bool,
    pub default_features: bool,
}

/// A dependency record as a mathematical value.
pub struct RecordView {
    pub name: Seq<char>,
    pub requirement: Seq<char>,
    pub features: Seq<Seq<char>>,
    pub package: Option<Seq<char>>,
    pub kind: DependencyKind,
    pub registry: Option<Seq<char>>,
    pub target: Option<Seq<char>>,
    pub optional: bool,
    pub default_features: bool,
}

/// The text of an optional string.
pub open spec fn text_of(value: Option<String>) -> Option<Seq<char>> {
    match value {
        Some(s) => Some(s@),
        None => None,
    }
}

impl View for DependencyRecord {
    type V = RecordView;

    open spec fn view(&self) -> RecordView {
        RecordView {
            name: self.name@,
            requirement: self.requirement@,
            features: texts(self.features@),
            package: text_of(self.package),
            kind: self.kind,
            registry: text_of(self.registry),
            target: text_of(self.target),
            optional: self.optional,
            default_features: self.default_features,
        }
    }
}

/// The records of a list as mathematical values.
pub open spec fn record_views(records: Seq<DependencyRecord>) -> Seq<RecordView> {
    records.map_values(|r: DependencyRecord| r@)
}

/// The lower-case hexadecimal digit for a value below sixteen.
pub open spec fn hex_digit_of(d: u8) -> char {
    if d < 10 {
        (48 + d) as char
    } else {
        (87 + d) as char
    }
}

/// Characters that are written as `\u{..}`: the ASCII control characters
/// that have no shorter escape.
pub open spec fn is_control(c: char) -> bool {
    (c as u32) < 0x20 || c as u32 == 0x7f
}

/// How one character stands between the quotes: a backslash escape for the
/// quote, the backslash and the control characters, the character itself
/// otherwise.
pub open spec fn escaped_char(c: char) -> Seq<char> {
    if c == '\0' {
        seq!['\\', '0']
    } else if c == '\t' {
        seq!['\\', 't']
    } else if c == '\n' {
        seq!['\\', 'n']
    } else if c == '\r' {
        seq!['\\', 'r']
    } else if c == '"' {
        seq!['\\', '"']
    } else if c == '\\' {
        seq!['\\', '\\']
    } else if is_control(c) {
        if (c as u32) < 16 {
            seq!['\\', 'u', '{', hex_digit_of(c as u8), '}']
        } else {
            seq!['\\', 'u', '{', hex_digit_of((c as u8) / 16), hex_digit_of((c as u8) % 16), '}']
        }
    } else {
        seq![c]
    }
}

/// A text with every character escaped.
pub open spec fn escaped(value: Seq<char>) -> Seq<char>
    decreases value.len(),
{
    if value.len() == 0 {
        Seq::empty()
    } else {
        escaped(value.drop_last()) + escaped_char(value.last())
    }
}

/// A text between double quotes, escaped.
pub open spec fn quoted(value: Seq<char>) -> Seq<char> {
    seq!['"'] + escaped(value) + seq!['"']
}

/// The line of a text field: the label, the quoted text, a comma.
pub open spec fn entry(label: Seq<char>, value: Seq<char>) -> Seq<char> {
    label + quoted(value) + seq![',']
}

/// The line of a flag: the label, `true` or `false`, a comma.
pub open spec fn flag_line(label: Seq<char>, flag: bool) -> Seq<char> {
    label + (if flag { "true,"@ } else { "false,"@ })
}

/// The line of the kind.
pub open spec fn kind_line(kind: DependencyKind) -> Seq<char> {
    match kind {
        DependencyKind::Normal => "    kind: Normal,"@,
        DependencyKind::Dev => "    kind: Dev,"@,
        DependencyKind::Build => "    kind: Build,"@,
    }
}

/// The lines of an optional text field: one line where it is absent, three
/// where it is present.
pub open spec fn optional_lines(label: Seq<char>, value: Option<Seq<char>>) -> Seq<Seq<char>> {
    match value {
        None => seq![label + "None,"@],
        Some(t) => seq![label + "Some("@, entry("        "@, t), "    ),"@],
    }
}

/// The lines of the feature list: one line where it is empty, else one line
/// for each feature between an opening and a closing line.
pub open spec fn feature_lines(features: Seq<Seq<char>>) -> Seq<Seq<char>> {
    if features.len() == 0 {
        seq!["    features: [],"@]
    } else {
        seq!["    features: ["@] + features.map_values(|f: Seq<char>| entry("        "@, f))
            + seq!["    ],"@]
    }
}

/// The canonical lines of a record: its fields in a fixed order.
pub open spec fn record_lines(r: RecordView) -> Seq<Seq<char>> {
    seq!["Dependency {"@, entry("    name: "@, r.name), entry("    req: "@, r.requirement)]
        + feature_lines(r.features) + optional_lines("    package: "@, r.package)
        + seq![kind_line(r.kind)] + optional_lines("    registry: "@, r.registry)
        + optional_lines("    target: "@, r.target) + seq![
        flag_line("    optional: "@, r.optional),
        flag_line("    default_features: "@, r.default_features),
        "}"@,
    ]
}

/// The canonical text of a record: its lines, a line feed between each two.
pub open spec fn rendering(r: RecordView) -> Seq<char> {
    joined(record_lines(r), line_feed())
}

fn hex_digit(d: u8) -> (c: char)
    requires
        d < 16,
    ensures
        c == hex_digit_of(d),
{
    if d < 10 {
        (48u8 + d) as char
    } else {
        (87u8 + d) as char
    }
}

fn push_escaped_char(out: &mut String, c: char)
    ensures
        final(out)@ == old(out)@ + escaped_char(c),
{
    let ghost start = out@;
    if c == '\0' {
        out.push('\\');
        out.push('0');
    } else if c == '\t' {
        out.push('\\');
        out.push('t');
    } else if c == '\n' {
        out.push('\\');
        out.push('n');
    } else if c == '\r' {
        out.push('\\');
        out.push('r');
    } else if c == '"' {
        out.push('\\');
        out.push('"');
    } else if c == '\\' {
        out.push('\\');
        out.push('\\');
    } else if (c as u32) < 0x20 || c as u32 == 0x7f {
        let v: u8 = c as u8;
        out.push('\\');
        out.push('u');
        out.push('{');
        if v < 16 {
            out.push(hex_digit(v));
        } else {
            out.push(hex_digit(v / 16));
            out.push(hex_digit(v % 16));
        }
        out.push('}');
    } else {
        out.push(c);
    }
    assert(out@ =~= start + escaped_char(c));
}

fn push_escaped(out: &mut String, value: &str)
    ensures
        final(out)@ == old(out)@ + escaped(value@),
{
    let ghost start = out@;
    assert(value@.take(0) =~= Seq::<char>::empty());
    assert(out@ =~= start + escaped(value@.take(0)));
    for c in it: value.chars()
        invariant
            it.seq() == value@,
            out@ == start + escaped(value@.take(it.index() as int)),
    {
        let ghost i = it.index() as int;
        assert(value@.take(i + 1).drop_last() =~= value@.take(i));
        assert(value@.take(i + 1).last() == c);
        push_escaped_char(out, c);
        assert(out@ =~= start + escaped(value@.take(i + 1)));
    }
    assert(value@.take(value@.len() as int) =~= value@);
}

fn entry_line(label: &str, value: &str) -> (r: String)
    ensures
        r@ == entry(label@, value@),
{
    let mut out = String::from_str(label);
    out.push('"');
    push_escaped(&mut out, value);
    out.push('"');
    out.push(',');
    assert(out@ =~= entry(label@, value@));
    out
}

fn flag_text(label: &str, flag: bool) -> (r: String)
    ensures
        r@ == flag_line(label@, flag),
{
    let mut out = String::from_str(label);
    if flag {
        out.append("true,");
    } else {
        out.append("false,");
    }
    out
}

fn kind_text(kind: DependencyKind) -> (r: String)
    ensures
        r@ == kind_line(kind),
{
    match kind {
        DependencyKind::Normal => String::from_str("    kind: Normal,"),
        DependencyKind::Dev => String::from_str("    kind: Dev,"),
        DependencyKind::Build => String::from_str("    kind: Build,"),
    }
}

fn push_optional(out: &mut Vec<String>, label: &str, value: &Option<String>)
    ensures
        texts(final(out)@) == texts(old(out)@) + optional_lines(label@, text_of(*value)),
{
    let ghost start = texts(out@);
    match value {
        None => {
            let mut line = String::from_str(label);
            line.append("None,");
            push_line(out, line);
        },
        Some(t) => {
            let mut line = String::from_str(label);
            line.append("Some(");
            push_line(out, line);
            push_line(out, entry_line("        ", t.as_str()));
            push_line(out, String::from_str("    ),"));
        },
    }
    assert(texts(out@) =~= start + optional_lines(label@, text_of(*value)));
}

fn push_features(out: &mut Vec<String>, features: &Vec<String>)
    ensures
        texts(final(out)@) == texts(old(out)@) + feature_lines(texts(features@)),
{
    let ghost start = texts(out@);
    if features.len() == 0 {
        push_line(out, String::from_str("    features: [],"));
        assert(texts(out@) =~= start + feature_lines(texts(features@)));
    } else {
        let ghost inner = texts(features@).map_values(|f: Seq<char>| entry("        "@, f));
        push_line(out, String::from_str("    features: ["));
        let mut i: usize = 0;
        assert(texts(out@) =~= start + seq!["    features: ["@] + inner.take(0));
        while i < features.len()
            invariant
                i <= features.len(),
                inner == texts(features@).map_values(|f: Seq<char>| entry("        "@, f)),
                texts(out@) == start + seq!["    features: ["@] + inner.take(i as int),
            decreases features.len() - i,
        {
            assert(inner[i as int] == entry("        "@, texts(features@)[i as int]));
            assert(inner.take(i + 1) =~= inner.take(i as int).push(inner[i as int]));
            push_line(out, entry_line("        ", features[i].as_str()));
            assert(texts(out@) =~= start + seq!["    features: ["@] + inner.take(i + 1));
            i += 1;
        }
        push_line(out, String::from_str("    ],"));
        assert(inner.take(i as int) =~= inner);
        assert(texts(out@) =~= start + feature_lines(texts(features@)));
    }
}

impl DependencyRecord {
    /// The canonical lines of the record.
    pub fn lines(&self) -> (r: Vec<String>)
        ensures
            texts(r@) == record_lines(self@),
    {
        let mut out: Vec<String> = Vec::new();
        assert(texts(out@) =~= Seq::<Seq<char>>::empty());
        push_line(&mut out, String::from_str("Dependency {"));
        push_line(&mut out, entry_line("    name: ", self.name.as_str()));
        push_line(&mut out, entry_line("    req: ", self.requirement.as_str()));
        let ghost head = seq![
            "Dependency {"@,
            entry("    name: "@, self@.name),
            entry("    req: "@, self@.requirement),
        ];
        assert(texts(out@) =~= head);
        push_features(&mut out, &self.features);
        push_optional(&mut out, "    package: ", &self.package);
        push_line(&mut out, kind_text(self.kind));
        push_optional(&mut out, "    registry: ", &self.registry);
        push_optional(&mut out, "    target: ", &self.target);
        let ghost body = texts(out@);
        assert(body =~= head + feature_lines(self@.features) + optional_lines(
            "    package: "@,
            self@.package,
        ) + seq![kind_line(self@.kind)] + optional_lines("    registry: "@, self@.registry)
            + optional_lines("    target: "@, self@.target));
        push_line(&mut out, flag_text("    optional: ", self.optional));
        push_line(&mut out, flag_text("    default_features: ", self.default_features));
        push_line(&mut out, String::from_str("}"));
        assert(texts(out@) =~= body + seq![
            flag_line("    optional: "@, self@.optional),
            flag_line("    default_features: "@, self@.default_features),
            "}"@,
        ]);
        out
    }

    /// The canonical text of the record.
    pub fn rendering(&self) -> (r: String)
        ensures
            r@ == rendering(self@),
    {
        let lines = self.lines();
        proof {
            reveal_strlit("\n");
            assert("\n"@ =~= line_feed());
        }
        join(&lines, "\n")
    }
}

} // verus!
