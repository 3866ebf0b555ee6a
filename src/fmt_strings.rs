//! Descriptors: the grammar `item+ '*'?` with `item := '%' ('s' | 'd') '?'?`,
//! compiled into a validated `FormatString`.
use vstd::prelude::*;

use crate::text::{chars_of, push_char};

verus! {

/// A compiled descriptor: its items in order, and how it ends.
#[derive(Clone, PartialEq, Eq, Debug)]
pub struct FormatString(pub Vec<FormatItem>, pub FormatEnding);

/// One positional slot: the type of its value and whether it may be missing.
#[derive(Copy, Clone, PartialEq, Eq, Debug, Structural)]
pub struct FormatItem(pub FormatItemType, pub FormatItemOpt);

/// The type of the value that a slot holds.
#[derive(Copy, Clone, PartialEq, Eq, Debug, Structural)]
pub enum FormatItemType {
    Str,
    Int,
}

/// Whether a slot must always be present.
#[derive(Copy, Clone, PartialEq, Eq, Debug, Structural)]
pub enum FormatItemOpt {
    Mandatory,
    Optional,
}

/// Whether fields beyond the declared items are allowed (`Open`, written `*`).
#[derive(Copy, Clone, PartialEq, Eq, Debug, Structural)]
pub enum FormatEnding {
    Closed,
    Open,
}

/// Why a descriptor was rejected.
#[derive(Copy, Clone, PartialEq, Eq, Debug, Structural)]
pub enum DescriptorError {
    /// The descriptor is the empty string.
    Empty,
    /// A character that the grammar does not allow where it stands.
    InvalidCharacter,
    /// A mandatory item follows an optional one.
    MandatoryAfterOptional,
    /// The first item is optional.
    LeadingOptional,
    /// `*` is not the last character.
    MisplacedWildcard,
    /// `*` ends a descriptor that declares no item before it.
    WildcardWithNoItems,
}

/// The model of a compiled descriptor: items and ending.
pub type DescriptorModel = (Seq<FormatItem>, FormatEnding);

impl FormatString {
    /// Its items and ending.
    pub open spec fn model(&self) -> DescriptorModel {
        (self.0@, self.1)
    }

    /// The invariant of every compiled descriptor.
    pub open spec fn wf(&self) -> bool {
        items_wf(self.0@)
    }
}

pub open spec fn is_optional(item: FormatItem) -> bool {
    item.1 == FormatItemOpt::Optional
}

/// Non-empty, the first item mandatory, and the optional items a suffix.
pub open spec fn items_wf(items: Seq<FormatItem>) -> bool {
    &&& items.len() > 0
    &&& !is_optional(items[0])
    &&& forall|i: int, j: int|
        0 <= i < j < items.len() && is_optional(items[i]) ==> is_optional(items[j])
}

/// The type of the item that `%` followed by `c` starts.
pub open spec fn type_of_letter(c: char) -> FormatItemType {
    if c == 's' {
        FormatItemType::Str
    } else {
        FormatItemType::Int
    }
}

/// The descriptor grammar, read left to right from position `i`, with `items`
/// already read.
pub open spec fn scan_from(s: Seq<char>, i: int, items: Seq<FormatItem>) -> Result<
    DescriptorModel,
    DescriptorError,
>
    decreases s.len() - i,
{
    if i < 0 || i >= s.len() {
        Ok((items, FormatEnding::Closed))
    } else if s[i] == '*' {
        if i + 1 < s.len() {
            Err(DescriptorError::MisplacedWildcard)
        } else if items.len() == 0 {
            Err(DescriptorError::WildcardWithNoItems)
        } else {
            Ok((items, FormatEnding::Open))
        }
    } else if s[i] != '%' || i + 1 >= s.len() || (s[i + 1] != 's' && s[i + 1] != 'd') {
        Err(DescriptorError::InvalidCharacter)
    } else {
        let opt = i + 2 < s.len() && s[i + 2] == '?';
        let item = FormatItem(
            type_of_letter(s[i + 1]),
            if opt {
                FormatItemOpt::Optional
            } else {
                FormatItemOpt::Mandatory
            },
        );
        if !opt && items.len() > 0 && is_optional(items.last()) {
            Err(DescriptorError::MandatoryAfterOptional)
        } else {
            scan_from(s, if opt { i + 3 } else { i + 2 }, items.push(item))
        }
    }
}

/// What compiling the descriptor `s` gives.
pub open spec fn compile_spec(s: Seq<char>) -> Result<DescriptorModel, DescriptorError> {
    if s.len() == 0 {
        Err(DescriptorError::Empty)
    } else {
        match scan_from(s, 0, Seq::empty()) {
            Ok(m) => if m.0.len() > 0 && is_optional(m.0[0]) {
                Err(DescriptorError::LeadingOptional)
            } else {
                Ok(m)
            },
            Err(e) => Err(e),
        }
    }
}

/// Compiles a descriptor into its items and ending, or says why it is not one.
pub fn compile_descriptor(fmt: &str) -> (r: Result<FormatString, DescriptorError>)
    ensures
        match r {
            Ok(fs) => compile_spec(fmt@) == Ok::<DescriptorModel, DescriptorError>(fs.model()),
            Err(e) => compile_spec(fmt@) == Err::<DescriptorModel, DescriptorError>(e),
        },
        r matches Ok(fs) ==> fs.wf() && descriptor_text(fs.model()) == fmt@,
{
    let cs = chars_of(fmt);
    if cs.len() == 0 {
        return Err(DescriptorError::Empty);
    }
    let mut items: Vec<FormatItem> = Vec::new();
    let mut ending = FormatEnding::Closed;
    let mut i: usize = 0;
    while i < cs.len()
        invariant_except_break
            i <= cs@.len(),
            cs@ == fmt@,
            cs@.len() > 0,
            compile_spec(fmt@) == ({
                match scan_from(cs@, i as int, items@) {
                    Ok(m) => if m.0.len() > 0 && is_optional(m.0[0]) {
                        Err(DescriptorError::LeadingOptional)
                    } else {
                        Ok(m)
                    },
                    Err(e) => Err(e),
                }
            }),
            ending == FormatEnding::Closed,
        ensures
            cs@ == fmt@,
            cs@.len() > 0,
            compile_spec(fmt@) == ({
                match scan_from(cs@, i as int, items@) {
                    Ok(m) => if m.0.len() > 0 && is_optional(m.0[0]) {
                        Err(DescriptorError::LeadingOptional)
                    } else {
                        Ok(m)
                    },
                    Err(e) => Err(e),
                }
            }),
            scan_from(cs@, i as int, items@) == Ok::<DescriptorModel, DescriptorError>(
                (items@, ending),
            ),
        decreases cs.len() - i,
    {
        let ch = cs[i];
        if ch == '*' {
            if i + 1 < cs.len() {
                return Err(DescriptorError::MisplacedWildcard);
            }
            if items.len() == 0 {
                return Err(DescriptorError::WildcardWithNoItems);
            }
            ending = FormatEnding::Open;
            break;
        }
        if ch != '%' || i + 1 >= cs.len() {
            return Err(DescriptorError::InvalidCharacter);
        }
        let item_type = if cs[i + 1] == 's' {
            FormatItemType::Str
        } else if cs[i + 1] == 'd' {
            FormatItemType::Int
        } else {
            return Err(DescriptorError::InvalidCharacter);
        };
        let optional = i + 2 < cs.len() && cs[i + 2] == '?';
        let item_opt = if optional {
            FormatItemOpt::Optional
        } else {
            FormatItemOpt::Mandatory
        };
        if !optional && items.len() > 0 && items[items.len() - 1].1 == FormatItemOpt::Optional {
            return Err(DescriptorError::MandatoryAfterOptional);
        }
        items.push(FormatItem(item_type, item_opt));
        i = if optional {
            i + 3
        } else {
            i + 2
        };
    }
    if items.len() > 0 && items[0].1 == FormatItemOpt::Optional {
        return Err(DescriptorError::LeadingOptional);
    }
    proof {
        lemma_compile_sound(fmt@);
    }
    Ok(FormatString(items, ending))
}

/// The two characters that stand for a slot of type `t`.
pub open spec fn type_text(t: FormatItemType) -> Seq<char> {
    match t {
        FormatItemType::Str => seq!['%', 's'],
        FormatItemType::Int => seq!['%', 'd'],
    }
}

/// The descriptor text of the mandatory items alone, in order: the prefix that
/// encoded text starts with.
pub open spec fn mandatory_text(items: Seq<FormatItem>) -> Seq<char>
    decreases items.len(),
{
    if items.len() == 0 {
        Seq::empty()
    } else if is_optional(items.last()) {
        mandatory_text(items.drop_last())
    } else {
        mandatory_text(items.drop_last()) + type_text(items.last().0)
    }
}

/// Whether some item is optional.
pub open spec fn has_optional(items: Seq<FormatItem>) -> bool {
    exists|i: int| 0 <= i < items.len() && is_optional(#[trigger] items[i])
}

/// Whether some item is optional.
pub fn has_optional_items(items: &[FormatItem]) -> (r: bool)
    ensures
        r == has_optional(items@),
{
    let mut i: usize = 0;
    while i < items.len()
        invariant
            i <= items@.len(),
            forall|k: int| 0 <= k < i ==> !is_optional(#[trigger] items@[k]),
        decreases items.len() - i,
    {
        if items[i].1 == FormatItemOpt::Optional {
            assert(is_optional(items@[i as int]));
            return true;
        }
        i = i + 1;
    }
    false
}

/// The descriptor text of the mandatory items alone, as encoded text carries it.
pub fn rebuild_format_string(items: &[FormatItem]) -> (r: String)
    ensures
        r@ == mandatory_text(items@),
{
    let mut r = String::new();
    let mut i: usize = 0;
    while i < items.len()
        invariant
            i <= items@.len(),
            r@ == mandatory_text(items@.take(i as int)),
        decreases items.len() - i,
    {
        let ghost before = items@.take(i as int);
        assert(items@.take(i + 1).drop_last() == before);
        if items[i].1 == FormatItemOpt::Mandatory {
            push_char(&mut r, '%');
            match items[i].0 {
                FormatItemType::Str => push_char(&mut r, 's'),
                FormatItemType::Int => push_char(&mut r, 'd'),
            }
            assert(r@ == mandatory_text(before) + type_text(items@[i as int].0));
        }
        i = i + 1;
    }
    assert(items@.take(i as int) == items@);
    r
}

/// Compiles a descriptor; none where it is not one.
pub fn parse_format_string_ex(fmt: &str) -> (r: Option<FormatString>)
    ensures
        match r {
            Some(fs) => compile_spec(fmt@) == Ok::<DescriptorModel, DescriptorError>(fs.model()),
            None => compile_spec(fmt@) is Err,
        },
        r matches Some(fs) ==> fs.wf() && descriptor_text(fs.model()) == fmt@,
{
    match compile_descriptor(fmt) {
        Ok(fs) => Some(fs),
        Err(_) => None,
    }
}

/// The types of a descriptor's items, for a descriptor with mandatory items
/// only and no `*`; none for any other text.
pub fn parse_format_string(fmt: &str) -> (r: Option<Vec<FormatItemType>>)
    ensures
        match r {
            Some(types) => match compile_spec(fmt@) {
                Ok(m) => {
                    &&& m.1 == FormatEnding::Closed
                    &&& !has_optional(m.0)
                    &&& types@ == m.0.map_values(|item: FormatItem| item.0)
                },
                Err(_) => false,
            },
            None => match compile_spec(fmt@) {
                Ok(m) => m.1 == FormatEnding::Open || has_optional(m.0),
                Err(_) => true,
            },
        },
{
    let fs = match parse_format_string_ex(fmt) {
        Some(fs) => fs,
        None => return None,
    };
    if fs.1 != FormatEnding::Closed {
        return None;
    }
    if has_optional_items(fs.0.as_slice()) {
        return None;
    }
    let mut types: Vec<FormatItemType> = Vec::new();
    let mut i: usize = 0;
    while i < fs.0.len()
        invariant
            i <= fs.0@.len(),
            types@ == fs.0@.take(i as int).map_values(|item: FormatItem| item.0),
        decreases fs.0.len() - i,
    {
        types.push(fs.0[i].0);
        i = i + 1;
        assert(types@ == fs.0@.take(i as int).map_values(|item: FormatItem| item.0));
    }
    assert(fs.0@.take(i as int) == fs.0@);
    Some(types)
}

/// The descriptor text of one item.
pub open spec fn item_text(item: FormatItem) -> Seq<char> {
    if is_optional(item) {
        type_text(item.0).push('?')
    } else {
        type_text(item.0)
    }
}

/// The descriptor text of the items, in order.
pub open spec fn items_text(items: Seq<FormatItem>) -> Seq<char>
    decreases items.len(),
{
    if items.len() == 0 {
        Seq::empty()
    } else {
        items_text(items.drop_last()) + item_text(items.last())
    }
}

/// The descriptor text of a compiled descriptor.
pub open spec fn descriptor_text(m: DescriptorModel) -> Seq<char> {
    match m.1 {
        FormatEnding::Closed => items_text(m.0),
        FormatEnding::Open => items_text(m.0).push('*'),
    }
}

/// No mandatory item after an optional one.
pub open spec fn optional_suffix(items: Seq<FormatItem>) -> bool {
    forall|i: int, j: int|
        0 <= i < j < items.len() && is_optional(items[i]) ==> is_optional(items[j])
}

/// What the scan accepts from position `i` on extends what it has read, and
/// spells it out.
proof fn lemma_scan_sound(s: Seq<char>, i: int, items: Seq<FormatItem>)
    requires
        0 <= i <= s.len(),
        s.take(i) == items_text(items),
        optional_suffix(items),
        scan_from(s, i, items) is Ok,
    ensures
        ({
            let m = scan_from(s, i, items)->Ok_0;
            &&& optional_suffix(m.0)
            &&& items.len() <= m.0.len()
            &&& m.0.take(items.len() as int) == items
            &&& descriptor_text(m) == s
            &&& m.1 == FormatEnding::Open ==> m.0.len() > 0
        }),
    decreases s.len() - i,
{
    if i >= s.len() {
        assert(s.take(i) == s);
        assert(items.take(items.len() as int) == items);
    } else if s[i] == '*' {
        assert(s.take(i).push('*') == s);
        assert(items.take(items.len() as int) == items);
    } else {
        let opt = i + 2 < s.len() && s[i + 2] == '?';
        let item = FormatItem(
            type_of_letter(s[i + 1]),
            if opt {
                FormatItemOpt::Optional
            } else {
                FormatItemOpt::Mandatory
            },
        );
        let next = items.push(item);
        let j = if opt { i + 3 } else { i + 2 };
        assert(next.drop_last() == items);
        assert(s.take(j) == s.take(i) + item_text(item));
        assert(optional_suffix(next)) by {
            if !opt && items.len() > 0 {
                assert(!is_optional(items.last()));
            }
        }
        lemma_scan_sound(s, j, next);
        let m = scan_from(s, j, next)->Ok_0;
        assert(m.0.take(items.len() as int) == m.0.take(next.len() as int).take(
            items.len() as int,
        ));
    }
}

/// What compiles is well formed, and is what its text spells.
pub proof fn lemma_compile_sound(s: Seq<char>)
    requires
        compile_spec(s) is Ok,
    ensures
        items_wf(compile_spec(s)->Ok_0.0),
        descriptor_text(compile_spec(s)->Ok_0) == s,
{
    assert(s.take(0) == items_text(Seq::<FormatItem>::empty()));
    lemma_scan_sound(s, 0, Seq::empty());
    let m = compile_spec(s)->Ok_0;
    if m.0.len() == 0 {
        assert(descriptor_text(m) == Seq::<char>::empty());
    }
}

/// The text of the first `k` items begins the text of all of them.
proof fn lemma_items_text_prefix(items: Seq<FormatItem>, k: int)
    requires
        0 <= k <= items.len(),
    ensures
        items_text(items.take(k)).len() <= items_text(items).len(),
        items_text(items).take(items_text(items.take(k)).len() as int) == items_text(
            items.take(k),
        ),
    decreases items.len(),
{
    if k == items.len() {
        assert(items.take(k) == items);
    } else {
        assert(items.drop_last().take(k) == items.take(k));
        lemma_items_text_prefix(items.drop_last(), k);
    }
}

/// The scan, started after the text of the first `k` items of a well-formed
/// descriptor, reads the rest of it.
proof fn lemma_scan_complete(m: DescriptorModel, k: int)
    requires
        items_wf(m.0),
        0 <= k <= m.0.len(),
    ensures
        scan_from(descriptor_text(m), items_text(m.0.take(k)).len() as int, m.0.take(k)) == Ok::<
            DescriptorModel,
            DescriptorError,
        >(m),
    decreases m.0.len() - k,
{
    let items = m.0;
    let s = descriptor_text(m);
    let all = items_text(items);
    let pos = items_text(items.take(k)).len() as int;
    assert(s.take(all.len() as int) == all);
    if k == items.len() {
        assert(items.take(k) == items);
    } else {
        let item = items[k];
        let t = items_text(items.take(k));
        assert(items.take(k + 1).drop_last() == items.take(k));
        assert(items.take(k + 1).last() == item);
        let t1 = items_text(items.take(k + 1));
        assert(t1 == t + item_text(item));
        lemma_items_text_prefix(items, k + 1);
        assert(s.take(t1.len() as int) == t1);
        assert(s[pos] == t1[pos]);
        assert(s[pos + 1] == t1[pos + 1]);
        let j = t1.len() as int;
        if is_optional(item) {
            assert(s[pos + 2] == t1[pos + 2]);
        } else if k + 1 < items.len() {
            let t2 = items_text(items.take(k + 2));
            assert(items.take(k + 2).drop_last() == items.take(k + 1));
            lemma_items_text_prefix(items, k + 2);
            assert(s[j] == t2[j]);
            assert(is_optional(items[k]) ==> is_optional(items[k + 1]));
        } else {
            assert(items.take(k + 1) == items);
        }
        if !is_optional(item) && k > 0 {
            assert(items.take(k).last() == items[k - 1]);
        }
        assert(items.take(k).push(item) == items.take(k + 1));
        lemma_scan_complete(m, k + 1);
    }
}

/// Every well-formed descriptor compiles from its own text.
pub proof fn lemma_compile_complete(m: DescriptorModel)
    requires
        items_wf(m.0),
    ensures
        compile_spec(descriptor_text(m)) == Ok::<DescriptorModel, DescriptorError>(m),
{
    assert(m.0.take(0) == Seq::<FormatItem>::empty());
    lemma_scan_complete(m, 0);
    lemma_items_text_prefix(m.0, 1);
    assert(m.0.take(1).drop_last() == Seq::<FormatItem>::empty());
    assert(items_text(m.0.take(1)).len() > 0);
    assert(descriptor_text(m).take(items_text(m.0).len() as int) == items_text(m.0));
}

} // verus!
