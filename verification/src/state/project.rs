//! The edited project: the package forest, the searchable completion
//! indices derived from it, and the current selection.

use vstd::prelude::*;
use vstd::string::StringExecFns;

use crate::java_model::package::all_decl_names;
use crate::java_model::package::all_pkg_names;
use crate::java_model::package::has_decl;
use crate::java_model::package::idx_of_name;
use crate::java_model::package::is_new_field_member;
use crate::java_model::package::match_depth;
use crate::java_model::package::member_target_exists;
use crate::java_model::package::spec_forest_added;
use crate::java_model::package::spec_forest_decl_added;
use crate::java_model::package::spec_member_added;
use crate::java_model::package::split_path;
use crate::java_model::package::split_segments;
use crate::java_model::package::valid_path;
use crate::java_model::package::walk_to;
use crate::java_model::ClassMember;
use crate::java_model::Declaration;
use crate::java_model::NamespaceError;
use crate::java_model::package::lemma_decl_names_no_nul;
use crate::java_model::package::lemma_decl_names_snoc;
use crate::java_model::package::lemma_pkg_names_no_nul;
use crate::java_model::package::lemma_pkg_names_snoc;
use crate::java_model::package::spec_decl_names_list;
use crate::java_model::package::spec_pkg_names_list;
use crate::java_model::Package;
use crate::search::SearchBuffer;

verus! {

/// The current focus: a package or a declaration, by fully qualified name.
#[derive(Debug, Clone, PartialEq, Eq)]
pub enum Selection {
    /// Selection of a package. Contains the qualified package name.
    Package(String),
    /// Selection of a declaration. Contains the qualified declaration name.
    Decl(String),
}

impl Selection {
    /// Whether this selection is a package whose qualified name equals `p`.
    pub fn is_package(&self, p: &str) -> (r: bool)
        ensures
            r == (self matches Selection::Package(n) && n@ == p@),
    {
        match self {
            Selection::Package(n) => p.to_owned() == *n,
            _ => false,
        }
    }

    /// Whether this selection is a declaration whose qualified name equals
    /// `p`.
    pub fn is_decl(&self, p: &str) -> (r: bool)
        ensures
            r == (self matches Selection::Decl(n) && n@ == p@),
    {
        match self {
            Selection::Decl(n) => p.to_owned() == *n,
            _ => false,
        }
    }
}

/// The project: a forest of root packages, a searchable list of qualified
/// package names, a searchable list of qualified declaration names, and the
/// current selection.
pub struct Project {
    pub package_list: Vec<Package>,
    /// A searchable list of strings for autocompleting packages.
    pub pkg_completion_list: SearchBuffer,
    /// A searchable list of strings for autocompleting declarations.
    pub decl_completion_list: SearchBuffer,
    /// The current selection, highlighted when rendering and used to
    /// prefill prompts.
    pub curr_sel: Option<Selection>,
}

impl Project {
    /// Every root is a well-formed tree, no two roots share a name, and the
    /// completion indices are well-formed buffers.
    pub open spec fn wf(&self) -> bool {
        &&& (forall|k: int|
            0 <= k < self.package_list@.len() ==> (#[trigger] self.package_list@[k]).wf())
        &&& (forall|i: int, j: int|
            0 <= i < j < self.package_list@.len() ==> (#[trigger] self.package_list@[i]).name@ != (
            #[trigger] self.package_list@[j]).name@)
        &&& self.pkg_completion_list.wf()
        &&& self.decl_completion_list.wf()
    }

    pub fn new() -> (r: Project)
        ensures
            r.wf(),
            r.package_list@ == Seq::<Package>::empty(),
            r.curr_sel is None,
            r.pkg_completion_list.strs() == Seq::<Seq<char>>::empty(),
            r.decl_completion_list.strs() == Seq::<Seq<char>>::empty(),
    {
        Project {
            package_list: Vec::new(),
            curr_sel: None,
            pkg_completion_list: SearchBuffer::new(),
            decl_completion_list: SearchBuffer::new(),
        }
    }

    /// Regenerate the package completion index from the current forest.
    pub fn regen_pkg_completion_list(&mut self)
        requires
            old(self).wf(),
        ensures
            final(self).wf(),
            final(self).package_list == old(self).package_list,
            final(self).decl_completion_list == old(self).decl_completion_list,
            final(self).curr_sel == old(self).curr_sel,
            final(self).pkg_completion_list.strs() == all_pkg_names(old(self).package_list@),
    {
        self.pkg_completion_list.clear();
        let n = self.package_list.len();
        let ghost ps = self.package_list@;
        let mut i: usize = 0;
        while i < n
            invariant
                self.package_list == old(self).package_list,
                self.decl_completion_list == old(self).decl_completion_list,
                self.curr_sel == old(self).curr_sel,
                old(self).wf(),
                ps == self.package_list@,
                n == ps.len(),
                0 <= i <= n,
                self.pkg_completion_list.wf(),
                self.pkg_completion_list.strs() == spec_pkg_names_list(
                    Seq::<char>::empty(),
                    ps.take(i as int),
                ),
            decreases n - i,
        {
            let names = self.package_list[i].gen_package_completion_list();
            proof {
                lemma_pkg_names_no_nul(Seq::<char>::empty(), ps[i as int]);
                assert forall|k: int| 0 <= k < names@.len() implies !(
                #[trigger] names@[k]@).contains('\x00') by {
                    assert(names@[k]@ == names.deep_view()[k]);
                }
                lemma_pkg_names_snoc(Seq::<char>::empty(), ps, i as int);
            }
            proof {
                assert(names@.map_values(|s: String| s@) =~= names.deep_view());
            }
            self.pkg_completion_list.add_strings_owned(names.as_slice());
            i = i + 1;
        }
        proof {
            assert(ps.take(n as int) =~= ps);
        }
    }

    /// Regenerate the declaration completion index from the current forest.
    pub fn regen_decl_completion_list(&mut self)
        requires
            old(self).wf(),
        ensures
            final(self).wf(),
            final(self).package_list == old(self).package_list,
            final(self).pkg_completion_list == old(self).pkg_completion_list,
            final(self).curr_sel == old(self).curr_sel,
            final(self).decl_completion_list.strs() == all_decl_names(old(self).package_list@),
    {
        self.decl_completion_list.clear();
        let n = self.package_list.len();
        let ghost ps = self.package_list@;
        let mut i: usize = 0;
        while i < n
            invariant
                self.package_list == old(self).package_list,
                self.pkg_completion_list == old(self).pkg_completion_list,
                self.curr_sel == old(self).curr_sel,
                old(self).wf(),
                ps == self.package_list@,
                n == ps.len(),
                0 <= i <= n,
                self.decl_completion_list.wf(),
                self.decl_completion_list.strs() == spec_decl_names_list(
                    Seq::<char>::empty(),
                    ps.take(i as int),
                ),
            decreases n - i,
        {
            let names = self.package_list[i].gen_decl_completion_list();
            proof {
                lemma_decl_names_no_nul(Seq::<char>::empty(), ps[i as int]);
                assert forall|k: int| 0 <= k < names@.len() implies !(
                #[trigger] names@[k]@).contains('\x00') by {
                    assert(names@[k]@ == names.deep_view()[k]);
                }
                lemma_decl_names_snoc(Seq::<char>::empty(), ps, i as int);
            }
            proof {
                assert(names@.map_values(|s: String| s@) =~= names.deep_view());
            }
            self.decl_completion_list.add_strings_owned(names.as_slice());
            i = i + 1;
        }
        proof {
            assert(ps.take(n as int) =~= ps);
        }
    }
}


impl Project {
    /// Add a fully qualified package name: the root matching the first
    /// segment takes the rest of the path, or a fresh root chain is created.
    pub fn add_package(&mut self, name: &str)
        requires
            old(self).wf(),
            valid_path(name@),
        ensures
            final(self).wf(),
            final(self).pkg_completion_list == old(self).pkg_completion_list,
            final(self).decl_completion_list == old(self).decl_completion_list,
            final(self).curr_sel == old(self).curr_sel,
            spec_forest_added(
                old(self).package_list@,
                final(self).package_list@,
                split_path(name@),
            ),
    {
        let segs = split_segments(name);
        proof {
            crate::java_model::package::lemma_split_len_pub(name@);
            assert(segs.deep_view()[0] == segs@[0]@);
        }
        let n = self.package_list.len();
        let ghost ps = self.package_list@;
        let mut i: usize = 0;
        while i < n
            invariant
                *self == *old(self),
                self.wf(),
                valid_path(name@),
                segs.deep_view() == split_path(name@),
                segs@.len() >= 1,
                segs.deep_view()[0] == segs@[0]@,
                ps == self.package_list@,
                n == ps.len(),
                0 <= i <= n,
                forall|k: int| 0 <= k < i ==> (#[trigger] ps[k]).name@ != segs@[0]@,
            decreases n - i,
        {
            if self.package_list[i].name == segs[0] {
                proof {
                    crate::java_model::package::lemma_idx_at_pub(ps, segs@[0]@, i as int);
                }
                let root = &mut self.package_list[i];
                let ghost r1 = *root;
                let path = root.add_subpackage(name);
                proof {
                    assert(self.package_list@ == ps.update(i as int, self.package_list@[i as int]));
                    crate::java_model::package::lemma_added_name(
                        r1,
                        self.package_list@[i as int],
                        split_path(name@).skip(1),
                    );
                    assert(self.wf()) by {
                        assert forall|k: int|
                            0 <= k < self.package_list@.len() implies (
                        #[trigger] self.package_list@[k]).wf() by {
                            if k != i as int {
                                assert(self.package_list@[k] == ps[k]);
                            }
                        }
                    }
                    assert(spec_forest_added(ps, self.package_list@, split_path(name@)));
                }
                return ;
            }
            i = i + 1;
        }
        proof {
            crate::java_model::package::lemma_idx_props_pub(ps, segs@[0]@);
        }
        let (fresh, _deepest) = Package::new(name);
        self.package_list.push(fresh);
        proof {
            assert(self.package_list@ == ps.push(fresh));
            assert(self.package_list@.last() == fresh);
            assert(fresh.name@ == split_path(name@)[0]);
            assert(self.wf()) by {
                assert forall|k: int|
                    0 <= k < self.package_list@.len() implies (
                #[trigger] self.package_list@[k]).wf() by {
                    if k < ps.len() {
                        assert(self.package_list@[k] == ps[k]);
                    }
                }
            }
        }
    }

    /// Add a declaration to the given package path, creating packages as
    /// needed; refuses a declaration whose name the target package already
    /// holds.
    pub fn add_decl(&mut self, pkg: &str, decl: Declaration) -> (r: Result<(), NamespaceError>)
        requires
            old(self).wf(),
            valid_path(pkg@),
            !decl.spec_name().contains('\x00'),
        ensures
            final(self).wf(),
            final(self).pkg_completion_list == old(self).pkg_completion_list,
            final(self).decl_completion_list == old(self).decl_completion_list,
            final(self).curr_sel == old(self).curr_sel,
            ({
                let segs = split_path(pkg@);
                let ps = old(self).package_list@;
                let i = idx_of_name(ps, segs[0]);
                if i < ps.len() && match_depth(ps[i], segs.skip(1)) == segs.len() - 1 && has_decl(
                    walk_to(ps[i], segs.skip(1)),
                    decl.spec_name(),
                ) {
                    &&& r == Err::<(), NamespaceError>(NamespaceError::DuplicateDeclaration)
                    &&& final(self).package_list@ == old(self).package_list@
                } else {
                    &&& r == Ok::<(), NamespaceError>(())
                    &&& spec_forest_decl_added(ps, final(self).package_list@, segs, decl)
                }
            }),
    {
        let segs = split_segments(pkg);
        proof {
            crate::java_model::package::lemma_split_len_pub(pkg@);
            assert(segs.deep_view()[0] == segs@[0]@);
        }
        let n = self.package_list.len();
        let ghost ps = self.package_list@;
        let mut i: usize = 0;
        while i < n
            invariant
                *self == *old(self),
                self.wf(),
                valid_path(pkg@),
                !decl.spec_name().contains('\x00'),
                segs.deep_view() == split_path(pkg@),
                segs@.len() >= 1,
                segs.deep_view()[0] == segs@[0]@,
                ps == self.package_list@,
                n == ps.len(),
                0 <= i <= n,
                forall|k: int| 0 <= k < i ==> (#[trigger] ps[k]).name@ != segs@[0]@,
            decreases n - i,
        {
            if self.package_list[i].name == segs[0] {
                proof {
                    crate::java_model::package::lemma_idx_at_pub(ps, segs@[0]@, i as int);
                }
                let root = &mut self.package_list[i];
                let ghost r1 = *root;
                let res = root.add_decl(pkg, decl);
                proof {
                    assert(self.package_list@ == ps.update(i as int, self.package_list@[i as int]));
                }
                match res {
                    Ok(added) => {
                        proof {
                            assert(added);
                            crate::java_model::package::lemma_decl_added_name(
                                r1,
                                self.package_list@[i as int],
                                split_path(pkg@).skip(1),
                                decl,
                            );
                            assert(self.wf()) by {
                                assert forall|k: int|
                                    0 <= k < self.package_list@.len() implies (
                                #[trigger] self.package_list@[k]).wf() by {
                                    if k != i as int {
                                        assert(self.package_list@[k] == ps[k]);
                                    }
                                }
                            }
                        }
                        return Ok(());
                    },
                    Err(e) => {
                        proof {
                            assert(e == NamespaceError::DuplicateDeclaration);
                            assert(self.package_list@ =~= ps);
                        }
                        return Err(e);
                    },
                }
            }
            i = i + 1;
        }
        proof {
            crate::java_model::package::lemma_idx_props_pub(ps, segs@[0]@);
        }
        let fresh = Package::build_chain_decl(segs.as_slice(), 0, decl);
        self.package_list.push(fresh);
        proof {
            assert(segs.deep_view().skip(0) =~= split_path(pkg@));
            assert(self.package_list@ == ps.push(fresh));
            assert(self.package_list@.last() == fresh);
            assert(self.wf()) by {
                assert forall|k: int|
                    0 <= k < self.package_list@.len() implies (
                #[trigger] self.package_list@[k]).wf() by {
                    if k < ps.len() {
                        assert(self.package_list@[k] == ps[k]);
                    }
                }
            }
        }
        Ok(())
    }

    /// Add a private field member to the declaration named by a fully
    /// qualified declaration path; fails when any package segment or the
    /// declaration itself is absent.
    pub fn add_decl_member(&mut self, name: &str, field_name: &str) -> (r: Result<
        (),
        NamespaceError,
    >)
        requires
            old(self).wf(),
            split_path(name@).len() >= 2,
        ensures
            final(self).wf(),
            final(self).pkg_completion_list == old(self).pkg_completion_list,
            final(self).decl_completion_list == old(self).decl_completion_list,
            final(self).curr_sel == old(self).curr_sel,
            ({
                let segs = split_path(name@);
                let ps = old(self).package_list@;
                let i = idx_of_name(ps, segs[0]);
                if i < ps.len() && member_target_exists(ps[i], segs.skip(1)) {
                    &&& r == Ok::<(), NamespaceError>(())
                    &&& final(self).package_list@.len() == ps.len()
                    &&& (forall|k: int|
                        0 <= k < ps.len() && k != i ==> final(self).package_list@[k] == ps[k])
                    &&& exists|m: ClassMember|
                        is_new_field_member(m, field_name@) && spec_member_added(
                            ps[i],
                            final(self).package_list@[i],
                            segs.skip(1),
                            m,
                        )
                } else {
                    &&& r == Err::<(), NamespaceError>(NamespaceError::DeclarationNotFound)
                    &&& final(self).package_list == old(self).package_list
                }
            }),
    {
        let segs = split_segments(name);
        proof {
            crate::java_model::package::lemma_split_len_pub(name@);
            assert(segs.deep_view()[0] == segs@[0]@);
        }
        let n = self.package_list.len();
        let ghost ps = self.package_list@;
        let mut i: usize = 0;
        while i < n
            invariant
                *self == *old(self),
                self.wf(),
                split_path(name@).len() >= 2,
                segs.deep_view() == split_path(name@),
                segs@.len() >= 2,
                segs.deep_view()[0] == segs@[0]@,
                ps == self.package_list@,
                n == ps.len(),
                0 <= i <= n,
                forall|k: int| 0 <= k < i ==> (#[trigger] ps[k]).name@ != segs@[0]@,
            decreases n - i,
        {
            if self.package_list[i].name == segs[0] {
                proof {
                    crate::java_model::package::lemma_idx_at_pub(ps, segs@[0]@, i as int);
                }
                if !self.package_list[i].member_exists(segs.as_slice(), 1) {
                    return Err(NamespaceError::DeclarationNotFound);
                }
                let root = &mut self.package_list[i];
                let ghost r1 = *root;
                root.add_member_rec(segs.as_slice(), 1, field_name);
                proof {
                    assert(self.package_list@ == ps.update(i as int, self.package_list@[i as int]));
                    let m = choose|m: ClassMember|
                        is_new_field_member(m, field_name@) && spec_member_added(
                            r1,
                            self.package_list@[i as int],
                            segs.deep_view().skip(1),
                            m,
                        );
                    crate::java_model::package::lemma_member_added_name_pub(
                        r1,
                        self.package_list@[i as int],
                        segs.deep_view().skip(1),
                        m,
                    );
                    assert(self.wf()) by {
                        assert forall|k: int|
                            0 <= k < self.package_list@.len() implies (
                        #[trigger] self.package_list@[k]).wf() by {
                            if k != i as int {
                                assert(self.package_list@[k] == ps[k]);
                            }
                        }
                    }
                }
                return Ok(());
            }
            i = i + 1;
        }
        proof {
            crate::java_model::package::lemma_idx_props_pub(ps, segs@[0]@);
        }
        Err(NamespaceError::DeclarationNotFound)
    }
}

} // verus!
