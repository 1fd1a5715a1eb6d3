//! The canonical text of a record determines the record: two records with
//! the same text are the same record.

use vstd::prelude::*;
use crate::record::{
    entry, escaped, escaped_char, feature_lines, flag_line, hex_digit_of, is_control, kind_line,
    optional_lines, quoted, record_lines, rendering, DependencyKind, RecordView,
};
use crate::text::{all_feed_free, feed_free, joined, line_feed};

verus! {

/// Characters that have an escape of two characters.
spec fn is_named(c: char) -> bool {
    c == '\0' || c == '\t' || c == '\n' || c == '\r' || c == '"' || c == '\\'
}

/// Two equal texts that begin with parts of one length consist of equal parts.
proof fn lemma_split<A>(x1: Seq<A>, y1: Seq<A>, x2: Seq<A>, y2: Seq<A>)
    requires
        x1 + y1 == x2 + y2,
        x1.len() == x2.len(),
    ensures
        x1 == x2,
        y1 == y2,
{
    assert(x1 =~= (x1 + y1).subrange(0, x1.len() as int));
    assert(x2 =~= (x2 + y2).subrange(0, x2.len() as int));
    assert(y1 =~= (x1 + y1).subrange(x1.len() as int, (x1 + y1).len() as int));
    assert(y2 =~= (x2 + y2).subrange(x2.len() as int, (x2 + y2).len() as int));
}

/// A lower-case hexadecimal digit is no closing brace, and tells its value.
proof fn lemma_hex_digit(d: u8, e: u8)
    requires
        d < 16,
        e < 16,
    ensures
        hex_digit_of(d) != '}',
        hex_digit_of(d) != '\n',
        hex_digit_of(d) == hex_digit_of(e) ==> d == e,
{
}

/// The escape of a character is not empty and holds no line feed.
proof fn lemma_escaped_char_shape(c: char)
    ensures
        escaped_char(c).len() >= 1,
        feed_free(escaped_char(c)),
{
    if is_control(c) && !is_named(c) {
        let v = c as u8;
        lemma_hex_digit(v % 16, v / 16);
        lemma_hex_digit(v / 16, v % 16);
    }
}

/// The escape with which a text begins tells the character.
proof fn lemma_escaped_char_decides(c1: char, c2: char, r1: Seq<char>, r2: Seq<char>)
    requires
        escaped_char(c1) + r1 == escaped_char(c2) + r2,
    ensures
        c1 == c2,
{
    let e1 = escaped_char(c1);
    let e2 = escaped_char(c2);
    let t1 = e1 + r1;
    let t2 = e2 + r2;
    assert(t1[0] == e1[0]);
    assert(t2[0] == e2[0]);
    let plain1 = !is_named(c1) && !is_control(c1);
    let plain2 = !is_named(c2) && !is_control(c2);
    if plain1 || plain2 {
        assert(c1 == c2);
    } else {
        assert(t1[1] == e1[1]);
        assert(t2[1] == e2[1]);
        if is_named(c1) || is_named(c2) {
            assert(c1 == c2);
        } else {
            let v1 = c1 as u8;
            let v2 = c2 as u8;
            assert(t1[3] == e1[3]);
            assert(t2[3] == e2[3]);
            assert(t1[4] == e1[4]);
            assert(t2[4] == e2[4]);
            lemma_hex_digit(v1 % 16, v2 % 16);
            lemma_hex_digit(v1 / 16, v2 / 16);
            lemma_hex_digit(v2 % 16, v1 % 16);
            lemma_hex_digit(v2 / 16, v1 / 16);
            if v1 < 16 && v2 < 16 {
                assert(v1 == v2);
            } else if v1 < 16 {
                assert(e1[4] == '}');
                assert(false);
            } else if v2 < 16 {
                assert(e2[4] == '}');
                assert(false);
            } else {
                assert(v1 / 16 == v2 / 16);
                assert(v1 % 16 == v2 % 16);
                assert(v1 == v2);
            }
            assert(c1 as u32 == c2 as u32);
        }
    }
}

/// Escaping goes through a text piece by piece.
proof fn lemma_escaped_concat(a: Seq<char>, b: Seq<char>)
    ensures
        escaped(a + b) == escaped(a) + escaped(b),
    decreases b.len(),
{
    if b.len() == 0 {
        assert(a + b =~= a);
        assert(escaped(a) + escaped(b) =~= escaped(a));
    } else {
        assert((a + b).drop_last() =~= a + b.drop_last());
        assert((a + b).last() == b.last());
        lemma_escaped_concat(a, b.drop_last());
        assert(escaped(a + b) =~= escaped(a) + escaped(b));
    }
}

/// An escaped text begins with the escape of its first character.
proof fn lemma_escaped_front(s: Seq<char>)
    requires
        s.len() > 0,
    ensures
        escaped(s) == escaped_char(s[0]) + escaped(s.drop_first()),
{
    let first = seq![s[0]];
    assert(s =~= first + s.drop_first());
    lemma_escaped_concat(first, s.drop_first());
    assert(first.drop_last() =~= Seq::<char>::empty());
    assert(first.last() == s[0]);
    assert(escaped(Seq::<char>::empty()) =~= Seq::<char>::empty());
    assert(escaped(first) =~= escaped_char(s[0]));
}

/// An escaped text holds no line feed.
pub proof fn lemma_escaped_feed_free(s: Seq<char>)
    ensures
        feed_free(escaped(s)),
    decreases s.len(),
{
    if s.len() > 0 {
        lemma_escaped_feed_free(s.drop_last());
        lemma_escaped_char_shape(s.last());
        let head = escaped(s.drop_last());
        let tail = escaped_char(s.last());
        assert forall|k: int| 0 <= k < escaped(s).len() implies #[trigger] escaped(s)[k]
            != '\n' by {
            if k < head.len() {
                assert(escaped(s)[k] == head[k]);
            } else {
                assert(escaped(s)[k] == tail[k - head.len()]);
            }
        }
    }
}

/// Two texts with the same escaped form are the same text.
pub proof fn lemma_escaped_injective(a: Seq<char>, b: Seq<char>)
    requires
        escaped(a) == escaped(b),
    ensures
        a == b,
    decreases a.len(),
{
    if a.len() == 0 || b.len() == 0 {
        if a.len() > 0 {
            lemma_escaped_front(a);
            lemma_escaped_char_shape(a[0]);
        }
        if b.len() > 0 {
            lemma_escaped_front(b);
            lemma_escaped_char_shape(b[0]);
        }
        assert(a =~= b);
    } else {
        lemma_escaped_front(a);
        lemma_escaped_front(b);
        let ra = escaped(a.drop_first());
        let rb = escaped(b.drop_first());
        lemma_escaped_char_decides(a[0], b[0], ra, rb);
        lemma_split(escaped_char(a[0]), ra, escaped_char(b[0]), rb);
        lemma_escaped_injective(a.drop_first(), b.drop_first());
        assert(a =~= seq![a[0]] + a.drop_first());
        assert(b =~= seq![b[0]] + b.drop_first());
    }
}

/// Two field lines with the same label and the same text hold the same value.
pub proof fn lemma_entry_injective(label: Seq<char>, v1: Seq<char>, v2: Seq<char>)
    requires
        entry(label, v1) == entry(label, v2),
    ensures
        v1 == v2,
{
    let e1 = escaped(v1);
    let e2 = escaped(v2);
    assert(entry(label, v1).len() == label.len() + e1.len() + 3);
    assert(entry(label, v2).len() == label.len() + e2.len() + 3);
    assert forall|k: int| 0 <= k < e1.len() implies e1[k] == e2[k] by {
        assert(entry(label, v1)[label.len() + 1 + k] == e1[k]);
        assert(entry(label, v2)[label.len() + 1 + k] == e2[k]);
    }
    assert(e1 =~= e2);
    lemma_escaped_injective(v1, v2);
}

/// A field line holds no line feed where its label holds none.
proof fn lemma_entry_feed_free(label: Seq<char>, value: Seq<char>)
    requires
        feed_free(label),
    ensures
        feed_free(entry(label, value)),
{
    lemma_escaped_feed_free(value);
    let e = escaped(value);
    let line = entry(label, value);
    assert forall|k: int| 0 <= k < line.len() implies #[trigger] line[k] != '\n' by {
        if k < label.len() {
            assert(line[k] == label[k]);
        } else if k == label.len() {
            assert(line[k] == '"');
        } else if k < label.len() + 1 + e.len() {
            assert(line[k] == e[k - label.len() - 1]);
        } else if k == label.len() + 1 + e.len() {
            assert(line[k] == '"');
        } else {
            assert(line[k] == ',');
        }
    }
}

/// The indent of a line inside a list or an option.
spec fn inner() -> Seq<char> {
    "        "@
}

proof fn lemma_inner()
    ensures
        inner().len() == 8,
        inner()[4] == ' ',
        feed_free(inner()),
{
    reveal_strlit("        ");
}

/// The feature lines at the head of a list of lines tell the features.
proof fn lemma_features_decide(
    f1: Seq<Seq<char>>,
    rest1: Seq<Seq<char>>,
    f2: Seq<Seq<char>>,
    rest2: Seq<Seq<char>>,
)
    requires
        feature_lines(f1) + rest1 == feature_lines(f2) + rest2,
    ensures
        f1 == f2,
        rest1 == rest2,
{
    reveal_strlit("    features: [],");
    reveal_strlit("    features: [");
    reveal_strlit("    ],");
    lemma_inner();
    let l1 = feature_lines(f1);
    let l2 = feature_lines(f2);
    let t1 = l1 + rest1;
    let t2 = l2 + rest2;
    assert(t1[0] == l1[0]);
    assert(t2[0] == l2[0]);
    if f1.len() == 0 || f2.len() == 0 {
        assert(f1 =~= f2);
    } else {
        let n1 = f1.len() as int;
        let n2 = f2.len() as int;
        let e1 = f1.map_values(|f: Seq<char>| entry("        "@, f));
        let e2 = f2.map_values(|f: Seq<char>| entry("        "@, f));
        assert(l1.len() == n1 + 2);
        assert(l2.len() == n2 + 2);
        assert(l1[n1 + 1] == "    ],"@);
        assert(l2[n2 + 1] == "    ],"@);
        if n1 < n2 {
            assert(t1[n1 + 1] == l1[n1 + 1]);
            assert(t2[n1 + 1] == l2[n1 + 1]);
            assert(l2[n1 + 1] == e2[n1]);
            assert(e2[n1] == entry(inner(), f2[n1]));
            assert(entry(inner(), f2[n1])[4] == inner()[4]);
            assert(false);
        }
        if n2 < n1 {
            assert(t1[n2 + 1] == l1[n2 + 1]);
            assert(t2[n2 + 1] == l2[n2 + 1]);
            assert(l1[n2 + 1] == e1[n2]);
            assert(e1[n2] == entry(inner(), f1[n2]));
            assert(entry(inner(), f1[n2])[4] == inner()[4]);
            assert(false);
        }
        assert forall|i: int| 0 <= i < n1 implies f1[i] == f2[i] by {
            assert(t1[i + 1] == l1[i + 1]);
            assert(t2[i + 1] == l2[i + 1]);
            assert(l1[i + 1] == e1[i]);
            assert(l2[i + 1] == e2[i]);
            lemma_entry_injective(inner(), f1[i], f2[i]);
        }
        assert(f1 =~= f2);
    }
    lemma_split(l1, rest1, l2, rest2);
}

/// The line of an absent field is not the first line of a present one.
proof fn lemma_none_is_not_some(label: Seq<char>)
    ensures
        label + "None,"@ != label + "Some("@,
{
    reveal_strlit("None,");
    reveal_strlit("Some(");
    let at = label.len() as int;
    assert((label + "None,"@)[at] == "None,"@[0]);
    assert((label + "Some("@)[at] == "Some("@[0]);
}

/// The lines of an optional field at the head of a list of lines tell the
/// field.
proof fn lemma_optional_decides(
    label: Seq<char>,
    v1: Option<Seq<char>>,
    rest1: Seq<Seq<char>>,
    v2: Option<Seq<char>>,
    rest2: Seq<Seq<char>>,
)
    requires
        optional_lines(label, v1) + rest1 == optional_lines(label, v2) + rest2,
    ensures
        v1 == v2,
        rest1 == rest2,
{
    let l1 = optional_lines(label, v1);
    let l2 = optional_lines(label, v2);
    let t1 = l1 + rest1;
    let t2 = l2 + rest2;
    assert(t1[0] == l1[0]);
    assert(t2[0] == l2[0]);
    lemma_none_is_not_some(label);
    match (v1, v2) {
        (Some(x), Some(y)) => {
            assert(t1[1] == l1[1]);
            assert(t2[1] == l2[1]);
            lemma_entry_injective("        "@, x, y);
        },
        (None, None) => {},
        (Some(_), None) => {
            assert(false);
        },
        (None, Some(_)) => {
            assert(false);
        },
    }
    lemma_split(l1, rest1, l2, rest2);
}

/// The line of the kind tells the kind.
proof fn lemma_kind_decides(k1: DependencyKind, k2: DependencyKind)
    requires
        kind_line(k1) == kind_line(k2),
    ensures
        k1 == k2,
{
    reveal_strlit("    kind: Normal,");
    reveal_strlit("    kind: Dev,");
    reveal_strlit("    kind: Build,");
    assert("    kind: Normal,"@.len() == 17);
    assert("    kind: Dev,"@.len() == 14);
    assert("    kind: Build,"@.len() == 16);
}

/// The line of a flag tells the flag.
proof fn lemma_flag_decides(label: Seq<char>, b1: bool, b2: bool)
    requires
        flag_line(label, b1) == flag_line(label, b2),
    ensures
        b1 == b2,
{
    reveal_strlit("true,");
    reveal_strlit("false,");
    assert((label + "true,"@).len() == label.len() + 5);
    assert((label + "false,"@).len() == label.len() + 6);
}

/// The lines of a record after those of its features.
spec fn after_features(r: RecordView) -> Seq<Seq<char>> {
    optional_lines("    package: "@, r.package) + after_package(r)
}

spec fn after_package(r: RecordView) -> Seq<Seq<char>> {
    seq![kind_line(r.kind)] + after_kind(r)
}

spec fn after_kind(r: RecordView) -> Seq<Seq<char>> {
    optional_lines("    registry: "@, r.registry) + after_registry(r)
}

spec fn after_registry(r: RecordView) -> Seq<Seq<char>> {
    optional_lines("    target: "@, r.target) + last_lines(r)
}

spec fn last_lines(r: RecordView) -> Seq<Seq<char>> {
    seq![
        flag_line("    optional: "@, r.optional),
        flag_line("    default_features: "@, r.default_features),
        "}"@,
    ]
}

spec fn first_lines(r: RecordView) -> Seq<Seq<char>> {
    seq!["Dependency {"@, entry("    name: "@, r.name), entry("    req: "@, r.requirement)]
}

/// The lines of a record, part after part.
proof fn lemma_lines_in_parts(r: RecordView)
    ensures
        record_lines(r) == first_lines(r) + (feature_lines(r.features) + after_features(r)),
{
    assert(record_lines(r) =~= first_lines(r) + (feature_lines(r.features) + after_features(r)));
}

/// Two records with the same canonical lines are the same record.
pub proof fn lemma_lines_injective(a: RecordView, b: RecordView)
    requires
        record_lines(a) == record_lines(b),
    ensures
        a == b,
{
    lemma_lines_in_parts(a);
    lemma_lines_in_parts(b);
    let ha = first_lines(a);
    let hb = first_lines(b);
    lemma_split(
        ha,
        feature_lines(a.features) + after_features(a),
        hb,
        feature_lines(b.features) + after_features(b),
    );
    assert(ha[1] == hb[1]);
    assert(ha[2] == hb[2]);
    lemma_entry_injective("    name: "@, a.name, b.name);
    lemma_entry_injective("    req: "@, a.requirement, b.requirement);
    lemma_features_decide(a.features, after_features(a), b.features, after_features(b));
    lemma_optional_decides(
        "    package: "@,
        a.package,
        after_package(a),
        b.package,
        after_package(b),
    );
    lemma_split(seq![kind_line(a.kind)], after_kind(a), seq![kind_line(b.kind)], after_kind(b));
    assert(seq![kind_line(a.kind)][0] == seq![kind_line(b.kind)][0]);
    lemma_kind_decides(a.kind, b.kind);
    lemma_optional_decides(
        "    registry: "@,
        a.registry,
        after_registry(a),
        b.registry,
        after_registry(b),
    );
    lemma_optional_decides("    target: "@, a.target, last_lines(a), b.target, last_lines(b));
    assert(last_lines(a)[0] == last_lines(b)[0]);
    assert(last_lines(a)[1] == last_lines(b)[1]);
    lemma_flag_decides("    optional: "@, a.optional, b.optional);
    lemma_flag_decides("    default_features: "@, a.default_features, b.default_features);
}

/// The lines of one list and those of another, one after the other, hold
/// no line feed where neither list does.
proof fn lemma_feed_free_concat(x: Seq<Seq<char>>, y: Seq<Seq<char>>)
    requires
        all_feed_free(x),
        all_feed_free(y),
    ensures
        all_feed_free(x + y),
{
    assert forall|i: int| 0 <= i < (x + y).len() implies feed_free(#[trigger] (x + y)[i]) by {
        if i < x.len() {
            assert((x + y)[i] == x[i]);
        } else {
            assert((x + y)[i] == y[i - x.len()]);
        }
    }
}

proof fn lemma_optional_feed_free(label: Seq<char>, value: Option<Seq<char>>)
    requires
        feed_free(label),
    ensures
        all_feed_free(optional_lines(label, value)),
{
    reveal_strlit("None,");
    reveal_strlit("Some(");
    reveal_strlit("    ),");
    lemma_inner();
    let lines = optional_lines(label, value);
    match value {
        None => {
            let line = label + "None,"@;
            assert forall|k: int| 0 <= k < line.len() implies #[trigger] line[k] != '\n' by {
                if k < label.len() {
                    assert(line[k] == label[k]);
                } else {
                    assert(line[k] == "None,"@[k - label.len()]);
                }
            }
            assert(lines[0] == line);
        },
        Some(t) => {
            let line = label + "Some("@;
            assert forall|k: int| 0 <= k < line.len() implies #[trigger] line[k] != '\n' by {
                if k < label.len() {
                    assert(line[k] == label[k]);
                } else {
                    assert(line[k] == "Some("@[k - label.len()]);
                }
            }
            lemma_entry_feed_free(inner(), t);
            assert(lines[0] == line);
            assert(lines[1] == entry(inner(), t));
            assert(feed_free("    ),"@));
        },
    }
}

proof fn lemma_flag_feed_free(label: Seq<char>, flag: bool)
    requires
        feed_free(label),
    ensures
        feed_free(flag_line(label, flag)),
{
    reveal_strlit("true,");
    reveal_strlit("false,");
    let word = if flag {
        "true,"@
    } else {
        "false,"@
    };
    let line = flag_line(label, flag);
    assert forall|k: int| 0 <= k < line.len() implies #[trigger] line[k] != '\n' by {
        if k < label.len() {
            assert(line[k] == label[k]);
        } else {
            assert(line[k] == word[k - label.len()]);
        }
    }
}

proof fn lemma_features_feed_free(features: Seq<Seq<char>>)
    ensures
        all_feed_free(feature_lines(features)),
{
    reveal_strlit("    features: [],");
    reveal_strlit("    features: [");
    reveal_strlit("    ],");
    lemma_inner();
    let lines = feature_lines(features);
    if features.len() > 0 {
        let inside = features.map_values(|f: Seq<char>| entry("        "@, f));
        assert forall|i: int| 0 <= i < lines.len() implies feed_free(#[trigger] lines[i]) by {
            if i == 0 {
                assert(lines[i] == "    features: ["@);
            } else if i <= features.len() {
                assert(lines[i] == inside[i - 1]);
                lemma_entry_feed_free(inner(), features[i - 1]);
            } else {
                assert(lines[i] == "    ],"@);
            }
        }
    }
}

/// No canonical line of a record holds a line feed.
pub proof fn lemma_lines_feed_free(r: RecordView)
    ensures
        all_feed_free(record_lines(r)),
        record_lines(r).len() >= 11,
{
    reveal_strlit("Dependency {");
    reveal_strlit("    name: ");
    reveal_strlit("    req: ");
    reveal_strlit("    package: ");
    reveal_strlit("    kind: Normal,");
    reveal_strlit("    kind: Dev,");
    reveal_strlit("    kind: Build,");
    reveal_strlit("    registry: ");
    reveal_strlit("    target: ");
    reveal_strlit("    optional: ");
    reveal_strlit("    default_features: ");
    reveal_strlit("}");
    lemma_lines_in_parts(r);
    lemma_entry_feed_free("    name: "@, r.name);
    lemma_entry_feed_free("    req: "@, r.requirement);
    lemma_features_feed_free(r.features);
    lemma_optional_feed_free("    package: "@, r.package);
    lemma_optional_feed_free("    registry: "@, r.registry);
    lemma_optional_feed_free("    target: "@, r.target);
    lemma_flag_feed_free("    optional: "@, r.optional);
    lemma_flag_feed_free("    default_features: "@, r.default_features);
    assert(all_feed_free(first_lines(r)));
    assert(all_feed_free(last_lines(r)));
    assert(all_feed_free(seq![kind_line(r.kind)]));
    lemma_feed_free_concat(optional_lines("    target: "@, r.target), last_lines(r));
    lemma_feed_free_concat(optional_lines("    registry: "@, r.registry), after_registry(r));
    lemma_feed_free_concat(seq![kind_line(r.kind)], after_kind(r));
    lemma_feed_free_concat(optional_lines("    package: "@, r.package), after_package(r));
    lemma_feed_free_concat(feature_lines(r.features), after_features(r));
    lemma_feed_free_concat(first_lines(r), feature_lines(r.features) + after_features(r));
}

/// What one of two lists of lines holds, both lists together hold.
proof fn lemma_contains_concat(x: Seq<Seq<char>>, y: Seq<Seq<char>>, line: Seq<char>)
    requires
        x.contains(line) || y.contains(line),
    ensures
        (x + y).contains(line),
{
    if x.contains(line) {
        let i = choose|i: int| 0 <= i < x.len() && x[i] == line;
        assert((x + y)[i] == line);
    } else {
        let i = choose|i: int| 0 <= i < y.len() && y[i] == line;
        assert((x + y)[x.len() + i] == line);
    }
}

/// A line of the fields from the package on is a line of the record.
proof fn lemma_later_line(r: RecordView, line: Seq<char>)
    requires
        after_features(r).contains(line),
    ensures
        record_lines(r).contains(line),
{
    lemma_lines_in_parts(r);
    lemma_contains_concat(feature_lines(r.features), after_features(r), line);
    lemma_contains_concat(first_lines(r), feature_lines(r.features) + after_features(r), line);
}

/// The lines of the three optional fields are lines of the record.
proof fn lemma_optional_lines_held(r: RecordView, line: Seq<char>)
    requires
        optional_lines("    package: "@, r.package).contains(line) || optional_lines(
            "    registry: "@,
            r.registry,
        ).contains(line) || optional_lines("    target: "@, r.target).contains(line),
    ensures
        record_lines(r).contains(line),
{
    let package = optional_lines("    package: "@, r.package);
    let registry = optional_lines("    registry: "@, r.registry);
    let target = optional_lines("    target: "@, r.target);
    if package.contains(line) {
        lemma_contains_concat(package, after_package(r), line);
    } else {
        if registry.contains(line) {
            lemma_contains_concat(registry, after_registry(r), line);
        } else {
            lemma_contains_concat(target, last_lines(r), line);
            lemma_contains_concat(registry, after_registry(r), line);
        }
        lemma_contains_concat(seq![kind_line(r.kind)], after_kind(r), line);
        lemma_contains_concat(package, after_package(r), line);
    }
    lemma_later_line(r, line);
}

/// Every field of a record has its lines among the canonical lines: a
/// record shows each of its fields.
pub proof fn lemma_lines_hold_fields(r: RecordView)
    ensures
        record_lines(r).contains(entry("    name: "@, r.name)),
        record_lines(r).contains(entry("    req: "@, r.requirement)),
        forall|line: Seq<char>| #[trigger]
            feature_lines(r.features).contains(line) ==> record_lines(r).contains(line),
        forall|i: int|
            0 <= i < r.features.len() ==> feature_lines(r.features).contains(
                entry("        "@, #[trigger] r.features[i]),
            ),
        forall|line: Seq<char>| #[trigger]
            optional_lines("    package: "@, r.package).contains(line) ==> record_lines(
                r,
            ).contains(line),
        record_lines(r).contains(kind_line(r.kind)),
        forall|line: Seq<char>| #[trigger]
            optional_lines("    registry: "@, r.registry).contains(line) ==> record_lines(
                r,
            ).contains(line),
        forall|line: Seq<char>| #[trigger]
            optional_lines("    target: "@, r.target).contains(line) ==> record_lines(r).contains(
                line,
            ),
        record_lines(r).contains(flag_line("    optional: "@, r.optional)),
        record_lines(r).contains(flag_line("    default_features: "@, r.default_features)),
{
    lemma_lines_in_parts(r);
    let rest = feature_lines(r.features) + after_features(r);
    let name = entry("    name: "@, r.name);
    let requirement = entry("    req: "@, r.requirement);
    assert(first_lines(r)[1] == name);
    assert(first_lines(r)[2] == requirement);
    lemma_contains_concat(first_lines(r), rest, name);
    lemma_contains_concat(first_lines(r), rest, requirement);
    assert forall|line: Seq<char>| #[trigger]
        feature_lines(r.features).contains(line) implies record_lines(r).contains(line) by {
        lemma_contains_concat(feature_lines(r.features), after_features(r), line);
        lemma_contains_concat(first_lines(r), rest, line);
    }
    assert forall|i: int| 0 <= i < r.features.len() implies feature_lines(r.features).contains(
        entry("        "@, #[trigger] r.features[i]),
    ) by {
        let inside = r.features.map_values(|f: Seq<char>| entry("        "@, f));
        assert(feature_lines(r.features)[i + 1] == inside[i]);
    }
    assert forall|line: Seq<char>| #[trigger]
        optional_lines("    package: "@, r.package).contains(line) implies record_lines(
        r,
    ).contains(line) by {
        lemma_optional_lines_held(r, line);
    }
    assert forall|line: Seq<char>| #[trigger]
        optional_lines("    registry: "@, r.registry).contains(line) implies record_lines(
        r,
    ).contains(line) by {
        lemma_optional_lines_held(r, line);
    }
    assert forall|line: Seq<char>| #[trigger]
        optional_lines("    target: "@, r.target).contains(line) implies record_lines(
        r,
    ).contains(line) by {
        lemma_optional_lines_held(r, line);
    }
    let kind = kind_line(r.kind);
    assert(seq![kind][0] == kind);
    lemma_contains_concat(seq![kind], after_kind(r), kind);
    lemma_contains_concat(optional_lines("    package: "@, r.package), after_package(r), kind);
    lemma_later_line(r, kind);
    let optional = flag_line("    optional: "@, r.optional);
    let default_features = flag_line("    default_features: "@, r.default_features);
    assert(last_lines(r)[0] == optional);
    assert(last_lines(r)[1] == default_features);
    let target = optional_lines("    target: "@, r.target);
    let registry = optional_lines("    registry: "@, r.registry);
    let package = optional_lines("    package: "@, r.package);
    lemma_contains_concat(target, last_lines(r), optional);
    lemma_contains_concat(registry, after_registry(r), optional);
    lemma_contains_concat(seq![kind], after_kind(r), optional);
    lemma_contains_concat(package, after_package(r), optional);
    lemma_later_line(r, optional);
    lemma_contains_concat(target, last_lines(r), default_features);
    lemma_contains_concat(registry, after_registry(r), default_features);
    lemma_contains_concat(seq![kind], after_kind(r), default_features);
    lemma_contains_concat(package, after_package(r), default_features);
    lemma_later_line(r, default_features);
}

/// Lines without line feeds can be read back from the text that joins them.
pub proof fn lemma_joined_injective(first: Seq<Seq<char>>, second: Seq<Seq<char>>)
    requires
        first.len() > 0,
        second.len() > 0,
        all_feed_free(first),
        all_feed_free(second),
        joined(first, line_feed()) == joined(second, line_feed()),
    ensures
        first == second,
    decreases first.len(),
{
    let text = joined(first, line_feed());
    let a = first.last();
    let b = second.last();
    assert(feed_free(a));
    assert(feed_free(b));
    if first.len() == 1 && second.len() == 1 {
        assert(first =~= second);
    } else if first.len() == 1 {
        let j = joined(second.drop_last(), line_feed());
        assert(text == j + line_feed() + b);
        assert(text[j.len() as int] == '\n');
        assert(a[j.len() as int] == '\n');
    } else if second.len() == 1 {
        let j = joined(first.drop_last(), line_feed());
        assert(text == j + line_feed() + a);
        assert(text[j.len() as int] == '\n');
        assert(b[j.len() as int] == '\n');
    } else {
        let ja = joined(first.drop_last(), line_feed());
        let jb = joined(second.drop_last(), line_feed());
        assert(text == ja + line_feed() + a);
        assert(text == jb + line_feed() + b);
        if a.len() < b.len() {
            assert(text[ja.len() as int] == '\n');
            assert(text[ja.len() as int] == b[ja.len() - jb.len() - 1]);
        }
        if b.len() < a.len() {
            assert(text[jb.len() as int] == '\n');
            assert(text[jb.len() as int] == a[jb.len() - ja.len() - 1]);
        }
        lemma_split(ja + line_feed(), a, jb + line_feed(), b);
        lemma_split(ja, line_feed(), jb, line_feed());
        let fa = first.drop_last();
        let fb = second.drop_last();
        assert forall|i: int| 0 <= i < fa.len() implies feed_free(#[trigger] fa[i]) by {
            assert(fa[i] == first[i]);
        }
        assert forall|i: int| 0 <= i < fb.len() implies feed_free(#[trigger] fb[i]) by {
            assert(fb[i] == second[i]);
        }
        lemma_joined_injective(fa, fb);
        assert(first =~= fa.push(a));
        assert(second =~= fb.push(b));
    }
}

/// Two records with the same canonical text are the same record: where any
/// field differs, the texts differ.
pub proof fn lemma_rendering_injective(a: RecordView, b: RecordView)
    requires
        rendering(a) == rendering(b),
    ensures
        a == b,
{
    lemma_lines_feed_free(a);
    lemma_lines_feed_free(b);
    lemma_joined_injective(record_lines(a), record_lines(b));
    lemma_lines_injective(a, b);
}

} // verus!
