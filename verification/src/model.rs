//! The data a link works on: relocatable objects as plain values, and the
//! mathematical view of each that the contracts of this crate speak of.

use vstd::prelude::*;

verus! {

/// What a section holds. Two sections merge only when their kinds agree.
#[derive(Clone, Copy, Debug, PartialEq, Eq, Structural)]
pub enum SectionKind {
    Code,
    Data,
    ReadOnlyData,
    Uninitialized,
    Other,
}

/// How far a symbol is visible, and how strongly it claims its name.
#[derive(Clone, Copy, Debug, PartialEq, Eq, Structural)]
pub enum Binding {
    Local,
    Global,
    Weak,
}

/// Where an input symbol lives inside its own object.
#[derive(Clone, Copy, Debug, PartialEq, Eq, Structural)]
pub enum Definition {
    Defined { section: usize, offset: u64 },
    Undefined,
    Common,
}

/// A relocation of an input section. `symbol` indexes the symbol list of the
/// object that owns the section; `kind` is the architecture's relocation type,
/// which a link carries and never reads.
#[derive(Clone, Copy, Debug, PartialEq, Eq, Structural)]
pub struct Relocation {
    pub offset: u64,
    pub symbol: usize,
    pub kind: u32,
    pub addend: i64,
}

/// A section of an input object. `size` is its size in the linked object's
/// memory, whether or not it carries bytes.
#[derive(Clone, Debug, PartialEq, Eq)]
pub struct Section {
    pub name: String,
    pub kind: SectionKind,
    pub align: u64,
    pub size: u64,
    /// The section's bytes; empty for an uninitialized section.
    pub data: Vec<u8>,
    pub relocations: Vec<Relocation>,
}

/// A symbol of an input object.
#[derive(Clone, Debug, PartialEq, Eq)]
pub struct Symbol {
    pub name: String,
    pub binding: Binding,
    pub definition: Definition,
}

/// One relocatable object, with the name under which diagnostics report it.
#[derive(Clone, Debug, PartialEq, Eq)]
pub struct InputObject {
    pub name: String,
    pub sections: Vec<Section>,
    pub symbols: Vec<Symbol>,
}

/// A definition, as the contracts speak of it.
pub enum DefinitionView {
    Defined { section: nat, offset: nat },
    Undefined,
    Common,
}

/// A relocation, as the contracts speak of it.
pub struct RelocationView {
    pub offset: nat,
    pub symbol: nat,
    pub kind: u32,
    pub addend: i64,
}

/// A section, as the contracts speak of it.
pub struct SectionView {
    pub name: Seq<char>,
    pub kind: SectionKind,
    pub align: nat,
    pub size: nat,
    pub data: Seq<u8>,
    pub relocations: Seq<RelocationView>,
}

/// A symbol, as the contracts speak of it.
pub struct SymbolView {
    pub name: Seq<char>,
    pub binding: Binding,
    pub definition: DefinitionView,
}

/// An input object, as the contracts speak of it.
pub struct InputObjectView {
    pub name: Seq<char>,
    pub sections: Seq<SectionView>,
    pub symbols: Seq<SymbolView>,
}

/// The views of the elements of a sequence, in order.
pub open spec fn views<T: View>(items: Seq<T>) -> Seq<T::V> {
    Seq::new(items.len(), |i: int| items[i]@)
}

impl View for Definition {
    type V = DefinitionView;

    open spec fn view(&self) -> DefinitionView {
        match *self {
            Definition::Defined { section, offset } => DefinitionView::Defined {
                section: section as nat,
                offset: offset as nat,
            },
            Definition::Undefined => DefinitionView::Undefined,
            Definition::Common => DefinitionView::Common,
        }
    }
}

impl View for Relocation {
    type V = RelocationView;

    open spec fn view(&self) -> RelocationView {
        RelocationView {
            offset: self.offset as nat,
            symbol: self.symbol as nat,
            kind: self.kind,
            addend: self.addend,
        }
    }
}

impl View for Section {
    type V = SectionView;

    open spec fn view(&self) -> SectionView {
        SectionView {
            name: self.name@,
            kind: self.kind,
            align: self.align as nat,
            size: self.size as nat,
            data: self.data@,
            relocations: views(self.relocations@),
        }
    }
}

impl View for Symbol {
    type V = SymbolView;

    open spec fn view(&self) -> SymbolView {
        SymbolView { name: self.name@, binding: self.binding, definition: self.definition@ }
    }
}

impl View for InputObject {
    type V = InputObjectView;

    open spec fn view(&self) -> InputObjectView {
        InputObjectView {
            name: self.name@,
            sections: views(self.sections@),
            symbols: views(self.symbols@),
        }
    }
}

/// `n` is 1, 2, 4, 8, ...
pub open spec fn is_power_of_two(n: nat) -> bool
    decreases n,
{
    n == 1 || (n >= 2 && n % 2 == 0 && is_power_of_two(n / 2))
}

impl SectionView {
    /// The alignment is a power of two, an uninitialized section carries no
    /// bytes, and any other section carries exactly `size` of them.
    pub open spec fn well_formed(self) -> bool {
        &&& is_power_of_two(self.align)
        &&& self.kind == SectionKind::Uninitialized ==> self.data.len() == 0
        &&& self.kind != SectionKind::Uninitialized ==> self.data.len() == self.size
    }
}

impl InputObjectView {
    /// Symbol `s` is defined in a section the object has, at an offset inside it.
    pub open spec fn symbol_in_range(self, s: int) -> bool {
        match self.symbols[s].definition {
            DefinitionView::Defined { section, offset } => {
                section < self.sections.len() && offset <= self.sections[section as int].size
            },
            _ => true,
        }
    }

    /// Relocation `r` of section `j` names a symbol the object has, and patches
    /// a place inside the section.
    pub open spec fn relocation_in_range(self, j: int, r: int) -> bool {
        let reloc = self.sections[j].relocations[r];
        reloc.symbol < self.symbols.len() && reloc.offset <= self.sections[j].size
    }

    /// Every section is well formed, and every symbol and relocation points
    /// inside the object.
    pub open spec fn well_formed(self) -> bool {
        &&& forall|j: int|
            0 <= j < self.sections.len() ==> (#[trigger] self.sections[j]).well_formed()
        &&& forall|s: int| 0 <= s < self.symbols.len() ==> #[trigger] self.symbol_in_range(s)
        &&& forall|j: int, r: int|
            0 <= j < self.sections.len() && 0 <= r < self.sections[j].relocations.len()
                ==> #[trigger] self.relocation_in_range(j, r)
    }
}

/// Every object of the set is well formed.
pub open spec fn all_well_formed(inputs: Seq<InputObjectView>) -> bool {
    forall|i: int| 0 <= i < inputs.len() ==> (#[trigger] inputs[i]).well_formed()
}

/// Decides whether `n` is a power of two.
pub fn power_of_two(n: u64) -> (r: bool)
    ensures
        r == is_power_of_two(n as nat),
{
    if n == 0 {
        return false;
    }
    let mut rest: u64 = n;
    while rest % 2 == 0
        invariant
            rest >= 1,
            is_power_of_two(rest as nat) == is_power_of_two(n as nat),
        decreases rest,
    {
        rest = rest / 2;
    }
    rest == 1
}

impl Section {
    /// Decides whether the section is well formed.
    pub fn is_well_formed(&self) -> (r: bool)
        ensures
            r == self@.well_formed(),
    {
        if !power_of_two(self.align) {
            return false;
        }
        let len: usize = self.data.len();
        assert(self@.data.len() == len);
        if self.kind == SectionKind::Uninitialized {
            len == 0
        } else {
            self.size <= usize::MAX as u64 && len == self.size as usize
        }
    }
}

impl InputObject {
    /// Decides whether the object is well formed. A link asks this of every
    /// object it is given.
    pub fn is_well_formed(&self) -> (r: bool)
        ensures
            r == self@.well_formed(),
    {
        let mut j: usize = 0;
        while j < self.sections.len()
            invariant
                j <= self.sections.len(),
                forall|k: int| 0 <= k < j ==> (#[trigger] self@.sections[k]).well_formed(),
            decreases self.sections.len() - j,
        {
            if !self.sections[j].is_well_formed() {
                assert(!self@.sections[j as int].well_formed());
                return false;
            }
            j += 1;
        }
        let mut s: usize = 0;
        while s < self.symbols.len()
            invariant
                s <= self.symbols.len(),
                forall|k: int| 0 <= k < s ==> #[trigger] self@.symbol_in_range(k),
            decreases self.symbols.len() - s,
        {
            let ok = match self.symbols[s].definition {
                Definition::Defined { section, offset } => {
                    section < self.sections.len() && offset <= self.sections[section].size
                },
                _ => true,
            };
            if !ok {
                assert(!self@.symbol_in_range(s as int));
                return false;
            }
            s += 1;
        }
        let mut j: usize = 0;
        while j < self.sections.len()
            invariant
                j <= self.sections.len(),
                forall|k: int, r: int|
                    0 <= k < j && 0 <= r < self@.sections[k].relocations.len()
                        ==> #[trigger] self@.relocation_in_range(k, r),
            decreases self.sections.len() - j,
        {
            let section = &self.sections[j];
            let mut r: usize = 0;
            while r < section.relocations.len()
                invariant
                    j < self.sections.len(),
                    *section == self.sections[j as int],
                    r <= section.relocations.len(),
                    forall|k: int, q: int|
                        0 <= k < j && 0 <= q < self@.sections[k].relocations.len()
                            ==> #[trigger] self@.relocation_in_range(k, q),
                    forall|q: int| 0 <= q < r ==> #[trigger] self@.relocation_in_range(j as int, q),
                decreases section.relocations.len() - r,
            {
                let reloc = &section.relocations[r];
                if !(reloc.symbol < self.symbols.len() && reloc.offset <= section.size) {
                    assert(!self@.relocation_in_range(j as int, r as int));
                    return false;
                }
                r += 1;
            }
            j += 1;
        }
        true
    }
}

/// Decides whether every object of the set is well formed.
pub fn inputs_well_formed(inputs: &Vec<InputObject>) -> (r: bool)
    ensures
        r == all_well_formed(views(inputs@)),
{
    let mut i: usize = 0;
    while i < inputs.len()
        invariant
            i <= inputs.len(),
            forall|k: int| 0 <= k < i ==> (#[trigger] views(inputs@)[k]).well_formed(),
        decreases inputs.len() - i,
    {
        if !inputs[i].is_well_formed() {
            assert(!views(inputs@)[i as int].well_formed());
            return false;
        }
        i += 1;
    }
    true
}

} // verus!
