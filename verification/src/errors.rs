use vstd::prelude::*;

verus! {

/// Failure of the patch-assembly translator: unknown mnemonics, malformed
/// address expressions, unresolvable symbolic operands.
#[derive(Debug)]
pub enum AsmError {
    /// The line names no known mnemonic; holds the offending line.
    UnknownInstruction(String),
    /// A label line's address expression is malformed; holds the bad fragment.
    MalformedExpression(String),
    /// A symbolic operand was found in no symbol table; holds the symbol.
    SymbolNotFound(String),
    /// A literal operand does not parse; holds the offending text.
    BadLiteral(String),
    /// A register operand is missing or not of the form `rN`.
    BadRegister(String),
    /// An operand the mnemonic needs is missing.
    MissingOperand,
}

/// Failure of the symbol-map reader.
#[derive(Debug)]
pub enum MapError {
    /// The map is not valid UTF-8 text.
    InvalidUtf8,
    /// A row matched the layout but its address field is not valid hex;
    /// holds the field's text.
    BadAddress(String),
}

/// Failure of the executable-container patcher.
#[derive(Debug)]
pub enum PatchError {
    /// The instruction's address falls inside no loaded region.
    AddressNotMapped(u32),
    /// The container's bytes are too short or malformed.
    BadContainer,
    /// More regions than the fixed header layout can describe.
    TooManyRegions,
    /// The regions' bytes would run past the 32-bit file offsets the header
    /// can hold.
    RegionTooLarge,
}

/// Failure of the static linker.
#[derive(Debug)]
pub enum LinkError {
    /// An archive's bytes could not be decoded.
    BadArchive,
    /// An archive member's bytes are not a supported relocatable object.
    BadObject,
    /// A relocation names a symbol defined in no archive and absent from the
    /// pre-existing game table; holds the symbol's name.
    UndefinedSymbol(String),
    /// A requested entry symbol is defined in no freshly compiled unit;
    /// holds the entry's name.
    EntrySymbolNotFound(String),
    /// A relocation kind the target toolchain is not known to emit;
    /// holds the kind's number.
    UnsupportedRelocation(u32),
    /// The assigned address space would run past the 32-bit boundary.
    AddressOverflow,
}

} // verus!
