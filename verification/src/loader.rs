//! The catalog of user programs that are linked into the kernel image.

use vstd::prelude::*;

verus! {

/// The user programs, each with its name and its ELF image, in the order of
/// the image.
pub struct AppCatalog {
    names: Vec<String>,
    images: Vec<Vec<u8>>,
}

impl AppCatalog {
    /// The names of the programs.
    pub closed spec fn names(&self) -> Seq<Seq<char>> {
        Seq::new(self.names@.len(), |i: int| self.names@[i]@)
    }

    /// The images of the programs.
    pub closed spec fn images(&self) -> Seq<Seq<u8>> {
        Seq::new(self.images@.len(), |i: int| self.images@[i]@)
    }

    /// Every program has a name and an image.
    pub closed spec fn wf(&self) -> bool {
        self.names@.len() == self.images@.len()
    }

    /// What well-formedness says of the names and the images.
    pub proof fn lemma_wf(&self)
        requires
            self.wf(),
        ensures
            self.names().len() == self.images().len(),
    {
    }

    /// Index of the first program with the name `name`.
    pub open spec fn find(&self, name: Seq<char>) -> Option<int> {
        if exists|i: int| self.named(i, name) {
            Some(
                choose|i: int|
                    self.named(i, name) && forall|j: int| 0 <= j < i ==> !self.named(j, name),
            )
        } else {
            None
        }
    }

    /// Whether the program with index `i` has the name `name`.
    pub open spec fn named(&self, i: int, name: Seq<char>) -> bool {
        0 <= i < self.names().len() && self.names()[i] == name
    }

    /// The image of the program with the index `id`.
    pub fn image(&self, id: usize) -> (image: &Vec<u8>)
        requires
            self.wf(),
            id < self.names().len(),
        ensures
            image@ == self.images()[id as int],
    {
        &self.images[id]
    }

    /// A catalog without programs.
    pub fn new() -> (catalog: AppCatalog)
        ensures
            catalog.wf(),
            catalog.names().len() == 0,
            catalog.images().len() == 0,
    {
        AppCatalog { names: Vec::new(), images: Vec::new() }
    }

    /// Adds a program at the end.
    pub fn push(&mut self, name: &str, image: Vec<u8>)
        requires
            old(self).wf(),
        ensures
            final(self).wf(),
            final(self).names() == old(self).names().push(name@),
            final(self).images() == old(self).images().push(image@),
    {
        self.names.push(name.to_owned());
        self.images.push(image);
        assert(self.names() =~= old(self).names().push(name@));
        assert(self.images() =~= old(self).images().push(image@));
    }
}

/// Number of programs in the catalog.
pub fn get_num_app(catalog: &AppCatalog) -> (n: usize)
    requires
        catalog.wf(),
    ensures
        n == catalog.names().len(),
{
    catalog.names.len()
}

/// Index of the first program with the name `name`, if there is one.
pub fn get_appid_by_name(catalog: &AppCatalog, name: &str) -> (id: Option<usize>)
    requires
        catalog.wf(),
    ensures
        match id {
            Some(i) => catalog.find(name@) == Some(i as int) && catalog.named(i as int, name@),
            None => catalog.find(name@) is None,
        },
{
    let wanted = name.to_owned();
    let mut i: usize = 0;
    while i < catalog.names.len()
        invariant
            i <= catalog.names@.len(),
            wanted@ == name@,
            forall|j: int| 0 <= j < i ==> !catalog.named(j, name@),
        ensures
            forall|j: int| !catalog.named(j, name@),
        decreases catalog.names@.len() - i,
    {
        if catalog.names[i] == wanted {
            proof {
                assert(catalog.named(i as int, name@));
                let c = choose|c: int|
                    catalog.named(c, name@) && forall|j: int| 0 <= j < c ==> !catalog.named(j, name@);
                if c < i {
                    assert(!catalog.named(c, name@));
                }
                if i < c {
                    assert(!catalog.named(i as int, name@));
                }
            }
            return Some(i);
        }
        i += 1;
    }
    None
}

/// The image of the first program with the name `name`, which the catalog
/// holds.
pub fn get_app_elf<'a>(catalog: &'a AppCatalog, name: &str) -> (image: &'a Vec<u8>)
    requires
        catalog.wf(),
        catalog.find(name@) is Some,
    ensures
        image@ == catalog.images()[catalog.find(name@)->0],
{
    let id = get_appid_by_name(catalog, name).unwrap();
    &catalog.images[id]
}

/// The lines that list the programs: a header, the names in order, and a
/// footer.
pub fn list_apps(catalog: &AppCatalog) -> (lines: Vec<String>)
    requires
        catalog.wf(),
    ensures
        lines@.len() == catalog.names().len() + 2,
        lines@[0]@ == "/**** APPS ****"@,
        forall|i: int| 0 <= i < catalog.names().len() ==> (#[trigger] lines@[i + 1])@ == catalog.names()[i],
        lines@[lines@.len() - 1]@ == "**************/"@,
{
    let mut lines: Vec<String> = Vec::new();
    lines.push("/**** APPS ****".to_owned());
    let mut i: usize = 0;
    while i < catalog.names.len()
        invariant
            i <= catalog.names@.len(),
            lines@.len() == i + 1,
            lines@[0]@ == "/**** APPS ****"@,
            forall|k: int| 0 <= k < i ==> (#[trigger] lines@[k + 1])@ == catalog.names()[k],
        decreases catalog.names@.len() - i,
    {
        lines.push(catalog.names[i].clone());
        i += 1;
    }
    lines.push("**************/".to_owned());
    lines
}

} // verus!
