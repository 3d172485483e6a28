//! Named text templates, and the rules by which they are found: which files
//! hold one, and which of several templates a name stands for.

use vstd::prelude::*;
use vstd::string::*;

verus! {

/// Where a template was loaded from. A later source overrides an earlier one.
#[derive(Debug, Clone, Copy, PartialEq, Eq, Structural)]
pub enum TemplateSource {
    /// Shipped with the program.
    BuiltIn,
    /// From the user's configuration directory.
    UserConfig,
    /// From the directory that the program runs in.
    Local,
}

/// A template under its name.
#[derive(Debug, Clone)]
pub struct VerbTemplate {
    pub name: String,
    pub content: String,
    pub source: TemplateSource,
}

/// The ending of the name of a file that holds a template.
pub open spec fn template_suffix() -> Seq<char> {
    seq!['.', 'j', 'i', 'n', 'j', 'a']
}

/// The file name is that of a template: something, then `.jinja`.
pub open spec fn is_template_file(file_name: Seq<char>) -> bool {
    file_name.len() > template_suffix().len() && file_name.subrange(
        file_name.len() - template_suffix().len(),
        file_name.len() as int,
    ) == template_suffix()
}

/// The name of the template that a file holds: its file name without the
/// ending.
pub open spec fn template_name_of(file_name: Seq<char>) -> Seq<char> {
    file_name.subrange(0, file_name.len() - template_suffix().len())
}

/// Position of the template that `name` stands for among the first `upto`:
/// the last one of that name, or -1 if there is none.
pub open spec fn template_index(templates: Seq<VerbTemplate>, name: Seq<char>, upto: int) -> int
    decreases upto,
{
    if upto <= 0 {
        -1
    } else if templates[upto - 1].name@ == name {
        upto - 1
    } else {
        template_index(templates, name, upto - 1)
    }
}

/// The position that a name stands for is that of a template of that name,
/// and no later template has the name.
pub proof fn lemma_template_index(templates: Seq<VerbTemplate>, name: Seq<char>, upto: int)
    requires
        0 <= upto <= templates.len(),
    ensures
        -1 <= template_index(templates, name, upto) < upto,
        template_index(templates, name, upto) >= 0 ==> templates[template_index(
            templates,
            name,
            upto,
        )].name@ == name,
        forall|k: int|
            template_index(templates, name, upto) < k < upto ==> (#[trigger] templates[k]).name@
                != name,
    decreases upto,
{
    if upto > 0 && templates[upto - 1].name@ != name {
        lemma_template_index(templates, name, upto - 1);
    }
}

/// The name of the template that the file `file_name` holds, or `None`
/// where the file is no template.
pub fn template_name(file_name: &str) -> (name: Option<String>)
    ensures
        match name {
            Some(name) => is_template_file(file_name@) && name@ == template_name_of(file_name@),
            None => !is_template_file(file_name@),
        },
{
    let n: usize = file_name.unicode_len();
    if n <= 6 {
        return None;
    }
    let stem: usize = n - 6;
    let fits: bool = file_name.get_char(stem) == '.' && file_name.get_char(stem + 1) == 'j'
        && file_name.get_char(stem + 2) == 'i' && file_name.get_char(stem + 3) == 'n'
        && file_name.get_char(stem + 4) == 'j' && file_name.get_char(stem + 5) == 'a';
    let ghost ending = file_name@.subrange(n - 6, n as int);
    if fits {
        assert(ending =~= template_suffix());
        Some(file_name.substring_char(0, stem).to_owned())
    } else {
        assert(ending != template_suffix()) by {
            if ending == template_suffix() {
                assert(ending[0] == '.' && ending[1] == 'j' && ending[2] == 'i' && ending[3] == 'n'
                    && ending[4] == 'j' && ending[5] == 'a');
            }
        }
        None
    }
}

impl VerbTemplate {
    /// The template that a file holds, or `None` where the file is no
    /// template.
    pub fn from_file(file_name: &str, content: String, source: TemplateSource) -> (template:
        Option<VerbTemplate>)
        ensures
            match template {
                Some(template) => {
                    &&& is_template_file(file_name@)
                    &&& template.name@ == template_name_of(file_name@)
                    &&& template.content == content
                    &&& template.source == source
                },
                None => !is_template_file(file_name@),
            },
    {
        match template_name(file_name) {
            Some(name) => Some(VerbTemplate { name, content, source }),
            None => None,
        }
    }
}

/// The template that `name` stands for: the one of that name that was loaded
/// last.
pub fn find_template<'a>(templates: &'a Vec<VerbTemplate>, name: &String) -> (found: Option<
    &'a VerbTemplate,
>)
    ensures
        match found {
            Some(template) => {
                let at = template_index(templates@, name@, templates@.len() as int);
                0 <= at < templates@.len() && *template == templates@[at]
            },
            None => template_index(templates@, name@, templates@.len() as int) == -1,
        },
{
    let mut upto: usize = templates.len();
    while upto > 0
        invariant
            upto <= templates@.len(),
            template_index(templates@, name@, templates@.len() as int) == template_index(
                templates@,
                name@,
                upto as int,
            ),
        decreases upto,
    {
        if templates[upto - 1].name == *name {
            return Some(&templates[upto - 1]);
        }
        upto = upto - 1;
    }
    None
}

} // verus!
