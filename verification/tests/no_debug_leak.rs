//! Types that carry raw secret material must not implement `Debug` or
//! `Display`. Each check below compiles only if the type lacks the trait: with
//! the trait present, the two blanket impls overlap and the call is ambiguous.

use aethel_core::plp::{MasterIdentity, Poly};
use aethel_core::sampling::{Polynomial, VectorK};

trait AmbiguousIfDebug<A> {
    fn check() {}
}
impl<T: ?Sized> AmbiguousIfDebug<()> for T {}
#[allow(dead_code)]
struct HasDebug;
impl<T: ?Sized + core::fmt::Debug> AmbiguousIfDebug<HasDebug> for T {}

trait AmbiguousIfDisplay<A> {
    fn check() {}
}
impl<T: ?Sized> AmbiguousIfDisplay<()> for T {}
#[allow(dead_code)]
struct HasDisplay;
impl<T: ?Sized + core::fmt::Display> AmbiguousIfDisplay<HasDisplay> for T {}

#[test]
fn no_debug_leak_assertions_compiled() {
    <Poly as AmbiguousIfDebug<_>>::check();
    <MasterIdentity as AmbiguousIfDebug<_>>::check();
    <Polynomial as AmbiguousIfDebug<_>>::check();
    <VectorK as AmbiguousIfDebug<_>>::check();
    <Poly as AmbiguousIfDisplay<_>>::check();
    <MasterIdentity as AmbiguousIfDisplay<_>>::check();
    <Polynomial as AmbiguousIfDisplay<_>>::check();
    <VectorK as AmbiguousIfDisplay<_>>::check();
}
