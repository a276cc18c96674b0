//! Classification of the files shown by the asset browser, and the names
//! given to new files.
use vstd::prelude::*;

use crate::logger::{decimal, digit_char, push_decimal};

verus! {

/// Compares two strings character by character.
fn str_eq(a: &str, b: &str) -> (r: bool)
    ensures
        r == (a@ == b@),
{
    let n = a.unicode_len();
    if n != b.unicode_len() {
        return false;
    }
    for i in 0..n
        invariant
            n == a@.len(),
            n == b@.len(),
            forall|j: int| 0 <= j < i ==> a@[j] == b@[j],
    {
        if a.get_char(i) != b.get_char(i) {
            return false;
        }
    }
    assert(a@ =~= b@);
    true
}

#[derive(Debug, Clone, Copy, PartialEq, Eq, Structural)]
pub enum Code {
    Json,
    Rust,
    C,
    Cpp,
    Python,
    Js,
    Wgsl,
    Wasm,
}

#[derive(Debug, Clone, Copy, PartialEq, Eq, Structural)]
pub enum AssetType {
    Asset,
    Template,
    Material,
}

#[derive(Debug, Clone, Copy, PartialEq, Eq, Structural)]
pub enum FileType {
    Directory,
    Code(Code),
    Asset(AssetType),
    Text,
    Image,
    Hdri,
    Archive,
    Blend,
    Gltf,
    Other,
    Error,
}

/// The type of a file with extension `ext`, or `None` for an asset file,
/// whose type its metadata tells.
pub open spec fn extension_file_type(ext: Seq<char>) -> Option<FileType> {
    if ext == "asset"@ {
        None
    } else if ext == "txt"@ || ext == "md"@ || ext == "markdown"@ {
        Some(FileType::Text)
    } else if ext == "png"@ || ext == "jpg"@ || ext == "jpeg"@ || ext == "gif"@ || ext == "webp"@ {
        Some(FileType::Image)
    } else if ext == "hdr"@ || ext == "exr"@ {
        Some(FileType::Hdri)
    } else if ext == "zip"@ || ext == "tar"@ || ext == "gz"@ || ext == "rar"@ {
        Some(FileType::Archive)
    } else if ext == "blend"@ || ext == "blend1"@ || ext == "blend2"@ {
        Some(FileType::Blend)
    } else if ext == "json"@ || ext == "yaml"@ || ext == "yml"@ {
        Some(FileType::Code(Code::Json))
    } else if ext == "glb"@ || ext == "gltf"@ {
        Some(FileType::Gltf)
    } else if ext == "rs"@ {
        Some(FileType::Code(Code::Rust))
    } else if ext == "c"@ {
        Some(FileType::Code(Code::C))
    } else if ext == "cpp"@ {
        Some(FileType::Code(Code::Cpp))
    } else if ext == "py"@ {
        Some(FileType::Code(Code::Python))
    } else if ext == "js"@ {
        Some(FileType::Code(Code::Js))
    } else if ext == "wgsl"@ {
        Some(FileType::Code(Code::Wgsl))
    } else if ext == "wasm"@ {
        Some(FileType::Code(Code::Wasm))
    } else {
        Some(FileType::Other)
    }
}

/// The table of extensions: each known extension gives its type, and any
/// other extension gives `Other`.
pub proof fn lemma_extension_table(ext: Seq<char>)
    ensures
        ext == "asset"@ ==> extension_file_type(ext) == None::<FileType>,
        (ext == "txt"@ || ext == "md"@ || ext == "markdown"@) ==> extension_file_type(ext) == Some(FileType::Text),
        (ext == "png"@ || ext == "jpg"@ || ext == "jpeg"@ || ext == "gif"@ || ext == "webp"@) ==> extension_file_type(ext) == Some(FileType::Image),
        (ext == "hdr"@ || ext == "exr"@) ==> extension_file_type(ext) == Some(FileType::Hdri),
        (ext == "zip"@ || ext == "tar"@ || ext == "gz"@ || ext == "rar"@) ==> extension_file_type(ext) == Some(FileType::Archive),
        (ext == "blend"@ || ext == "blend1"@ || ext == "blend2"@) ==> extension_file_type(ext) == Some(FileType::Blend),
        (ext == "json"@ || ext == "yaml"@ || ext == "yml"@) ==> extension_file_type(ext) == Some(FileType::Code(Code::Json)),
        (ext == "glb"@ || ext == "gltf"@) ==> extension_file_type(ext) == Some(FileType::Gltf),
        ext == "rs"@ ==> extension_file_type(ext) == Some(FileType::Code(Code::Rust)),
        ext == "c"@ ==> extension_file_type(ext) == Some(FileType::Code(Code::C)),
        ext == "cpp"@ ==> extension_file_type(ext) == Some(FileType::Code(Code::Cpp)),
        ext == "py"@ ==> extension_file_type(ext) == Some(FileType::Code(Code::Python)),
        ext == "js"@ ==> extension_file_type(ext) == Some(FileType::Code(Code::Js)),
        ext == "wgsl"@ ==> extension_file_type(ext) == Some(FileType::Code(Code::Wgsl)),
        ext == "wasm"@ ==> extension_file_type(ext) == Some(FileType::Code(Code::Wasm)),
        ext != "asset"@ && ext != "txt"@ && ext != "md"@ && ext != "markdown"@ && ext != "png"@ && ext != "jpg"@ && ext != "jpeg"@ && ext != "gif"@ && ext != "webp"@ && ext != "hdr"@ && ext != "exr"@ && ext != "zip"@ && ext != "tar"@ && ext != "gz"@ && ext != "rar"@ && ext != "blend"@ && ext != "blend1"@ && ext != "blend2"@ && ext != "json"@ && ext != "yaml"@ && ext != "yml"@ && ext != "glb"@ && ext != "gltf"@ && ext != "rs"@ && ext != "c"@ && ext != "cpp"@ && ext != "py"@ && ext != "js"@ && ext != "wgsl"@ && ext != "wasm"@ ==> extension_file_type(ext) == Some(FileType::Other),
{
    reveal_strlit("asset");
    assert("asset"@ =~= seq!['a', 's', 's', 'e', 't']);
    reveal_strlit("txt");
    assert("txt"@ =~= seq!['t', 'x', 't']);
    reveal_strlit("md");
    assert("md"@ =~= seq!['m', 'd']);
    reveal_strlit("markdown");
    assert("markdown"@ =~= seq!['m', 'a', 'r', 'k', 'd', 'o', 'w', 'n']);
    reveal_strlit("png");
    assert("png"@ =~= seq!['p', 'n', 'g']);
    reveal_strlit("jpg");
    assert("jpg"@ =~= seq!['j', 'p', 'g']);
    reveal_strlit("jpeg");
    assert("jpeg"@ =~= seq!['j', 'p', 'e', 'g']);
    reveal_strlit("gif");
    assert("gif"@ =~= seq!['g', 'i', 'f']);
    reveal_strlit("webp");
    assert("webp"@ =~= seq!['w', 'e', 'b', 'p']);
    reveal_strlit("hdr");
    assert("hdr"@ =~= seq!['h', 'd', 'r']);
    reveal_strlit("exr");
    assert("exr"@ =~= seq!['e', 'x', 'r']);
    reveal_strlit("zip");
    assert("zip"@ =~= seq!['z', 'i', 'p']);
    reveal_strlit("tar");
    assert("tar"@ =~= seq!['t', 'a', 'r']);
    reveal_strlit("gz");
    assert("gz"@ =~= seq!['g', 'z']);
    reveal_strlit("rar");
    assert("rar"@ =~= seq!['r', 'a', 'r']);
    reveal_strlit("blend");
    assert("blend"@ =~= seq!['b', 'l', 'e', 'n', 'd']);
    reveal_strlit("blend1");
    assert("blend1"@ =~= seq!['b', 'l', 'e', 'n', 'd', '1']);
    reveal_strlit("blend2");
    assert("blend2"@ =~= seq!['b', 'l', 'e', 'n', 'd', '2']);
    reveal_strlit("json");
    assert("json"@ =~= seq!['j', 's', 'o', 'n']);
    reveal_strlit("yaml");
    assert("yaml"@ =~= seq!['y', 'a', 'm', 'l']);
    reveal_strlit("yml");
    assert("yml"@ =~= seq!['y', 'm', 'l']);
    reveal_strlit("glb");
    assert("glb"@ =~= seq!['g', 'l', 'b']);
    reveal_strlit("gltf");
    assert("gltf"@ =~= seq!['g', 'l', 't', 'f']);
    reveal_strlit("rs");
    assert("rs"@ =~= seq!['r', 's']);
    reveal_strlit("c");
    assert("c"@ =~= seq!['c']);
    reveal_strlit("cpp");
    assert("cpp"@ =~= seq!['c', 'p', 'p']);
    reveal_strlit("py");
    assert("py"@ =~= seq!['p', 'y']);
    reveal_strlit("js");
    assert("js"@ =~= seq!['j', 's']);
    reveal_strlit("wgsl");
    assert("wgsl"@ =~= seq!['w', 'g', 's', 'l']);
    reveal_strlit("wasm");
    assert("wasm"@ =~= seq!['w', 'a', 's', 'm']);
}

/// The kind of asset whose metadata carries the tag `tag`.
pub open spec fn tag_asset_type(tag: Seq<char>) -> AssetType {
    if tag == "Template"@ {
        AssetType::Template
    } else if tag == "Material"@ {
        AssetType::Material
    } else {
        AssetType::Asset
    }
}

impl AssetType {
    /// The kind of asset whose metadata carries the tag `tag`.
    pub fn from_tag(tag: &str) -> (r: AssetType)
        ensures
            r == tag_asset_type(tag@),
            tag@ == "Template"@ ==> r == AssetType::Template,
            tag@ == "Material"@ ==> r == AssetType::Material,
            tag@ != "Template"@ && tag@ != "Material"@ ==> r == AssetType::Asset,
    {
        proof {
            reveal_strlit("Template");
            reveal_strlit("Material");
            assert("Template"@ =~= seq!['T', 'e', 'm', 'p', 'l', 'a', 't', 'e']);
            assert("Material"@ =~= seq!['M', 'a', 't', 'e', 'r', 'i', 'a', 'l']);
        }
        if str_eq(tag, "Template") {
            AssetType::Template
        } else if str_eq(tag, "Material") {
            AssetType::Material
        } else {
            AssetType::Asset
        }
    }
}

impl FileType {
    /// The type of a file that is not a directory, from its extension:
    /// `None` for an asset file, whose type its metadata tells. A file
    /// without an extension (or whose extension is not text) is `Other`.
    pub fn from_extension(extension: Option<&str>) -> (r: Option<FileType>)
        ensures
            extension is None ==> r == Some(FileType::Other),
            extension matches Some(ext) ==> r == extension_file_type(ext@),
            extension matches Some(e) && (e@ == "asset"@) ==> r == None::<FileType>,
            extension matches Some(e) && (e@ == "txt"@ || e@ == "md"@ || e@ == "markdown"@) ==> r == Some(FileType::Text),
            extension matches Some(e) && (e@ == "png"@ || e@ == "jpg"@ || e@ == "jpeg"@ || e@ == "gif"@ || e@ == "webp"@) ==> r == Some(FileType::Image),
            extension matches Some(e) && (e@ == "hdr"@ || e@ == "exr"@) ==> r == Some(FileType::Hdri),
            extension matches Some(e) && (e@ == "zip"@ || e@ == "tar"@ || e@ == "gz"@ || e@ == "rar"@) ==> r == Some(FileType::Archive),
            extension matches Some(e) && (e@ == "blend"@ || e@ == "blend1"@ || e@ == "blend2"@) ==> r == Some(FileType::Blend),
            extension matches Some(e) && (e@ == "json"@ || e@ == "yaml"@ || e@ == "yml"@) ==> r == Some(FileType::Code(Code::Json)),
            extension matches Some(e) && (e@ == "glb"@ || e@ == "gltf"@) ==> r == Some(FileType::Gltf),
            extension matches Some(e) && (e@ == "rs"@) ==> r == Some(FileType::Code(Code::Rust)),
            extension matches Some(e) && (e@ == "c"@) ==> r == Some(FileType::Code(Code::C)),
            extension matches Some(e) && (e@ == "cpp"@) ==> r == Some(FileType::Code(Code::Cpp)),
            extension matches Some(e) && (e@ == "py"@) ==> r == Some(FileType::Code(Code::Python)),
            extension matches Some(e) && (e@ == "js"@) ==> r == Some(FileType::Code(Code::Js)),
            extension matches Some(e) && (e@ == "wgsl"@) ==> r == Some(FileType::Code(Code::Wgsl)),
            extension matches Some(e) && (e@ == "wasm"@) ==> r == Some(FileType::Code(Code::Wasm)),
    {
        proof {
            if let Some(e) = extension {
                lemma_extension_table(e@);
            }
        }
        let ext = match extension {
            Some(ext) => ext,
            None => {
                return Some(FileType::Other);
            },
        };
        if str_eq(ext, "asset") {
            None
        } else if str_eq(ext, "txt") || str_eq(ext, "md") || str_eq(ext, "markdown") {
            Some(FileType::Text)
        } else if str_eq(ext, "png") || str_eq(ext, "jpg") || str_eq(ext, "jpeg") || str_eq(ext, "gif")
            || str_eq(ext, "webp") {
            Some(FileType::Image)
        } else if str_eq(ext, "hdr") || str_eq(ext, "exr") {
            Some(FileType::Hdri)
        } else if str_eq(ext, "zip") || str_eq(ext, "tar") || str_eq(ext, "gz") || str_eq(ext, "rar") {
            Some(FileType::Archive)
        } else if str_eq(ext, "blend") || str_eq(ext, "blend1") || str_eq(ext, "blend2") {
            Some(FileType::Blend)
        } else if str_eq(ext, "json") || str_eq(ext, "yaml") || str_eq(ext, "yml") {
            Some(FileType::Code(Code::Json))
        } else if str_eq(ext, "glb") || str_eq(ext, "gltf") {
            Some(FileType::Gltf)
        } else if str_eq(ext, "rs") {
            Some(FileType::Code(Code::Rust))
        } else if str_eq(ext, "c") {
            Some(FileType::Code(Code::C))
        } else if str_eq(ext, "cpp") {
            Some(FileType::Code(Code::Cpp))
        } else if str_eq(ext, "py") {
            Some(FileType::Code(Code::Python))
        } else if str_eq(ext, "js") {
            Some(FileType::Code(Code::Js))
        } else if str_eq(ext, "wgsl") {
            Some(FileType::Code(Code::Wgsl))
        } else if str_eq(ext, "wasm") {
            Some(FileType::Code(Code::Wasm))
        } else {
            Some(FileType::Other)
        }
    }

    /// The type of an asset file from the tag its metadata carries, or
    /// `Error` when the metadata could not be read.
    pub fn from_asset_tag(tag: Option<&str>) -> (r: FileType)
        ensures
            tag matches Some(t) ==> r == FileType::Asset(tag_asset_type(t@)),
            tag is None ==> r == FileType::Error,
    {
        match tag {
            Some(t) => FileType::Asset(AssetType::from_tag(t)),
            None => FileType::Error,
        }
    }

    pub fn is_text(&self) -> (r: bool)
        ensures
            r == (*self == FileType::Text || *self is Code),
    {
        match self {
            FileType::Text | FileType::Code(_) => true,
            _ => false,
        }
    }

    /// Returns `true` if the file type is [`FileType::Image`].
    pub fn is_image(&self) -> (r: bool)
        ensures
            r == (*self == FileType::Image),
    {
        match self {
            FileType::Image => true,
            _ => false,
        }
    }

    /// Returns `true` if the file type is [`FileType::Asset`].
    pub fn is_asset(&self) -> (r: bool)
        ensures
            r == (*self is Asset),
    {
        match self {
            FileType::Asset(_) => true,
            _ => false,
        }
    }
}

/// The name tried for a new file once `attempt` names were found taken:
/// the base name itself at first, then the base name followed by the number
/// of the attempt in brackets.
pub open spec fn candidate_name(base: Seq<char>, attempt: nat) -> Seq<char> {
    if attempt == 0 {
        base
    } else {
        base + " ("@ + decimal(attempt) + ")"@
    }
}

/// A number has at least one decimal digit, and two from ten on.
proof fn lemma_decimal_len(n: nat)
    ensures
        decimal(n).len() >= 1,
        n >= 10 ==> decimal(n).len() >= 2,
    decreases n,
{
    if n >= 10 {
        lemma_decimal_len(n / 10);
    }
}

/// Distinct numbers have distinct decimal digits.
proof fn lemma_decimal_injective(n: nat, m: nat)
    requires
        decimal(n) == decimal(m),
    ensures
        n == m,
    decreases n,
{
    lemma_decimal_len(n / 10);
    lemma_decimal_len(m / 10);
    if n < 10 && m < 10 {
        assert(decimal(n)[0] == digit_char(n));
        assert(decimal(m)[0] == digit_char(m));
        assert(digit_char(n) as int == '0' as int + n);
        assert(digit_char(m) as int == '0' as int + m);
    } else if n >= 10 && m >= 10 {
        let dn = decimal(n);
        let dm = decimal(m);
        assert(dn.drop_last() == decimal(n / 10));
        assert(dm.drop_last() == decimal(m / 10));
        lemma_decimal_injective(n / 10, m / 10);
        assert(dn.last() == digit_char(n % 10));
        assert(dm.last() == digit_char(m % 10));
        assert(digit_char(n % 10) as int == '0' as int + n % 10);
        assert(digit_char(m % 10) as int == '0' as int + m % 10);
    } else {
        lemma_decimal_len(n);
        lemma_decimal_len(m);
    }
}

/// Each attempt tries a name that no other attempt tries, so a search
/// through the attempts in order never tries a name twice.
pub proof fn lemma_candidate_names_differ(base: Seq<char>, a: nat, b: nat)
    requires
        a != b,
    ensures
        candidate_name(base, a) != candidate_name(base, b),
{
    lemma_decimal_len(a);
    lemma_decimal_len(b);
    if a > 0 && b > 0 {
        let ca = candidate_name(base, a);
        let cb = candidate_name(base, b);
        if ca == cb {
            reveal_strlit(" (");
            reveal_strlit(")");
            let start: int = base.len() as int + 2;
            assert(ca.len() == start + decimal(a).len() + 1);
            assert(cb.len() == start + decimal(b).len() + 1);
            assert(ca.subrange(start, start + decimal(a).len()) =~= decimal(a));
            assert(cb.subrange(start, start + decimal(b).len()) =~= decimal(b));
            lemma_decimal_injective(a, b);
        }
    }
}

/// The file name (without extension) to try for a new file named after
/// `base_name`, once `attempt` names were found taken.
pub fn next_filename_candidate(base_name: &str, attempt: u32) -> (r: String)
    ensures
        r@ == candidate_name(base_name@, attempt as nat),
{
    let mut name = String::new();
    name.append(base_name);
    if attempt > 0 {
        name.append(" (");
        push_decimal(&mut name, attempt);
        name.append(")");
    }
    name
}

/// The unit in which the size of a file is shown.
#[derive(Debug, Clone, Copy, PartialEq, Eq, Structural)]
pub enum SizeUnit {
    Bytes,
    Kilobytes,
    Megabytes,
    Gigabytes,
}

/// The number of bytes in one of `unit`.
pub open spec fn unit_bytes(unit: SizeUnit) -> nat {
    match unit {
        SizeUnit::Bytes => 1,
        SizeUnit::Kilobytes => 1024,
        SizeUnit::Megabytes => 1024 * 1024,
        SizeUnit::Gigabytes => 1024 * 1024 * 1024,
    }
}

/// Each unit is 1024 of the one below it, from single bytes up.
pub proof fn lemma_units_grow_by_1024()
    ensures
        unit_bytes(SizeUnit::Bytes) == 1,
        unit_bytes(SizeUnit::Kilobytes) == 1024 * unit_bytes(SizeUnit::Bytes),
        unit_bytes(SizeUnit::Megabytes) == 1024 * unit_bytes(SizeUnit::Kilobytes),
        unit_bytes(SizeUnit::Gigabytes) == 1024 * unit_bytes(SizeUnit::Megabytes),
{
}

/// The largest unit, up to gigabytes, of which a file of `size` bytes holds
/// at least one.
pub open spec fn spec_size_unit(size: nat) -> SizeUnit {
    if size < unit_bytes(SizeUnit::Kilobytes) {
        SizeUnit::Bytes
    } else if size < unit_bytes(SizeUnit::Megabytes) {
        SizeUnit::Kilobytes
    } else if size < unit_bytes(SizeUnit::Gigabytes) {
        SizeUnit::Megabytes
    } else {
        SizeUnit::Gigabytes
    }
}

impl SizeUnit {
    /// The unit in which a file of `size` bytes is shown.
    pub fn of_size(size: u64) -> (r: SizeUnit)
        ensures
            r == spec_size_unit(size as nat),
            size >= 1 ==> unit_bytes(r) <= size,
            r != SizeUnit::Gigabytes ==> size < 1024 * unit_bytes(r),
    {
        if size < 1024 {
            SizeUnit::Bytes
        } else if size < 1024 * 1024 {
            SizeUnit::Kilobytes
        } else if size < 1024 * 1024 * 1024 {
            SizeUnit::Megabytes
        } else {
            SizeUnit::Gigabytes
        }
    }

    /// The number of bytes in one of the unit.
    pub fn bytes(self) -> (r: u64)
        ensures
            r == unit_bytes(self),
    {
        match self {
            SizeUnit::Bytes => 1,
            SizeUnit::Kilobytes => 1024,
            SizeUnit::Megabytes => 1024 * 1024,
            SizeUnit::Gigabytes => 1024 * 1024 * 1024,
        }
    }

    /// The name shown after a size in the unit.
    pub fn label(self) -> (r: &'static str)
        ensures
            r@ == match self {
                SizeUnit::Bytes => "bytes"@,
                SizeUnit::Kilobytes => "KB"@,
                SizeUnit::Megabytes => "MB"@,
                SizeUnit::Gigabytes => "GB"@,
            },
    {
        match self {
            SizeUnit::Bytes => "bytes",
            SizeUnit::Kilobytes => "KB",
            SizeUnit::Megabytes => "MB",
            SizeUnit::Gigabytes => "GB",
        }
    }
}

} // verus!
