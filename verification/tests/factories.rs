use mlab_rs::numpy_ml::utils::kernels::{kernel_kind, KernelKind};
use mlab_rs::numpy_ml::neural_nets::activations::{activation_kind, ActivationKind};
use mlab_rs::numpy_ml::neural_nets::losses::{loss_kind, LossKind};
use mlab_rs::numpy_ml::neural_nets::optimizers::{optimizer_kind, OptimizerKind};
use mlab_rs::numpy_ml::neural_nets::schedulers::{scheduler_kind, SchedulerKind};

#[test]
fn activation_names_select_their_kind() {
    assert_eq!(activation_kind("Sigmoid"), ActivationKind::Sigmoid);
    assert_eq!(activation_kind("ReLU"), ActivationKind::ReLU);
    assert_eq!(activation_kind("Tanh"), ActivationKind::Tanh);
    assert_eq!(activation_kind("Identity"), ActivationKind::Identity);
    assert_eq!(activation_kind("Exponential"), ActivationKind::Exponential);
    assert_eq!(activation_kind("SELU"), ActivationKind::SELU);
    assert_eq!(activation_kind("HardSigmoid"), ActivationKind::HardSigmoid);
    assert_eq!(activation_kind("SoftPlus"), ActivationKind::SoftPlus);
    assert_eq!(activation_kind("GELU"), ActivationKind::GELU);
    assert_eq!(activation_kind("ELU"), ActivationKind::ELU);
}

#[test]
fn activation_prefixes_and_unknown_names() {
    assert_eq!(activation_kind("LeakyReLU(alpha=0.3)"), ActivationKind::LeakyReLU);
    assert_eq!(activation_kind("LeakyReLU"), ActivationKind::LeakyReLU);
    assert_eq!(activation_kind("Affine(slope=2)"), ActivationKind::Affine);
    assert_eq!(activation_kind("Leaky"), ActivationKind::Identity);
    assert_eq!(activation_kind("relu"), ActivationKind::Identity);
    assert_eq!(activation_kind(""), ActivationKind::Identity);
    assert_eq!(activation_kind("Sigmoid "), ActivationKind::Identity);
}

#[test]
fn loss_optimizer_and_scheduler_names() {
    assert_eq!(loss_kind("SquaredError"), LossKind::SquaredError);
    assert_eq!(loss_kind("CrossEntropy"), LossKind::CrossEntropy);
    assert_eq!(loss_kind("Hinge"), LossKind::SquaredError);
    assert_eq!(optimizer_kind("SGD"), OptimizerKind::SGD);
    assert_eq!(optimizer_kind("AdaGrad"), OptimizerKind::AdaGrad);
    assert_eq!(optimizer_kind("RMSProp"), OptimizerKind::RMSProp);
    assert_eq!(optimizer_kind("Adam"), OptimizerKind::Adam);
    assert_eq!(optimizer_kind("adam"), OptimizerKind::SGD);
    assert_eq!(scheduler_kind("ConstantScheduler"), SchedulerKind::Constant);
    assert_eq!(scheduler_kind("ExponentialScheduler"), SchedulerKind::Exponential);
    assert_eq!(scheduler_kind("NoamScheduler"), SchedulerKind::Noam);
    assert_eq!(scheduler_kind("Cosine"), SchedulerKind::Constant);
}

#[test]
fn kernel_names_select_their_kind() {
    assert_eq!(kernel_kind(None), Some(KernelKind::Linear));
    assert_eq!(kernel_kind(Some("linear")), Some(KernelKind::Linear));
    assert_eq!(kernel_kind(Some("LinearKernel")), Some(KernelKind::Linear));
    assert_eq!(kernel_kind(Some("polynomial")), Some(KernelKind::Polynomial));
    assert_eq!(kernel_kind(Some("PolynomialKernel")), Some(KernelKind::Polynomial));
    assert_eq!(kernel_kind(Some("rbf")), Some(KernelKind::RBF));
    assert_eq!(kernel_kind(Some("RBFKernel")), Some(KernelKind::RBF));
    assert_eq!(kernel_kind(Some("sigmoid")), None);
}
