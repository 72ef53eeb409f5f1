use sovits_svc::attention::{
    absolute_to_relative, relative_embeddings, relative_to_absolute, WINDOW_SIZE,
};
use sovits_svc::contentvec::{ContentVec, ContentVecError, Recorded, Stage};
use sovits_svc::f0_decoder::F0Decoder;
use sovits_svc::flow::ResidualCoupling;
use sovits_svc::gan::{f0_to_coarse, GanCore, GanModel};
use sovits_svc::audio::Resampling;
use sovits_svc::gan_generator::{Generator, GeneratorError, SourceInputs};
use sovits_svc::inference::{
    InferenceError, InferenceOptions, Refinement, Refiner, SovitsSvc,
};
use sovits_svc::refine::flow_matching::{bracket, Evaluation, FlowMatchingRefiner, FlowValues};
use sovits_svc::refine::model::{schedule_bracket, SecondUpdate};
use sovits_svc::refine::shallow_diffusion::ShallowDiffusionRefiner;
use sovits_svc::refine::RefineError;
use sovits_svc::shapes::DataType;
use sovits_svc::single::Single;
use sovits_svc::upsampler::stage_lengths;
use sovits_svc::vocoder::{
    MelSpectrogram, NsfHifiGan, Surroundings, VocoderError, VocoderGenerator, VocoderSourceInputs,
};
use sovits_svc::weights::{Kind, Tensor, Weights, WeightsError};

fn single(value: f32) -> Single {
    Single {
        bits: value.to_bits(),
    }
}

/// A list of tensors that is filled by kinds of layers.
struct Checkpoint {
    tensors: Vec<(String, Vec<i32>)>,
}

impl Checkpoint {
    fn new() -> Checkpoint {
        Checkpoint {
            tensors: Vec::new(),
        }
    }

    fn add(&mut self, name: &str, shape: &[i32]) {
        self.tensors.push((name.to_owned(), shape.to_vec()));
    }

    fn linear(&mut self, name: &str, input: i32, output: i32) {
        self.add(&format!("{name}.weight"), &[output, input]);
        self.add(&format!("{name}.bias"), &[output]);
    }

    fn conv(&mut self, name: &str, input: i32, output: i32, kernel: i32) {
        self.add(&format!("{name}.weight"), &[output, kernel, input]);
        self.add(&format!("{name}.bias"), &[output]);
    }

    fn norm(&mut self, name: &str, size: i32) {
        self.add(&format!("{name}.weight"), &[size]);
        self.add(&format!("{name}.bias"), &[size]);
    }

    fn gamma_norm(&mut self, name: &str, size: i32) {
        self.add(&format!("{name}.gamma"), &[size]);
        self.add(&format!("{name}.beta"), &[size]);
    }

    fn without(&self, name: &str) -> Checkpoint {
        let tensors = self
            .tensors
            .iter()
            .filter(|tensor| tensor.0 != name)
            .cloned()
            .collect();
        Checkpoint { tensors }
    }

    fn with(&self, name: &str, shape: &[i32]) -> Checkpoint {
        let mut changed = self.without(name);
        changed.add(name, shape);
        changed
    }

    fn slot(&self, name: &str) -> usize {
        self.tensors
            .iter()
            .position(|tensor| tensor.0 == name)
            .unwrap()
    }

    fn weights(&self) -> Weights {
        let tensors = self
            .tensors
            .iter()
            .enumerate()
            .map(|(slot, tensor)| Tensor {
                name: tensor.0.clone(),
                shape: tensor.1.clone(),
                slot,
            })
            .collect();
        Weights::load("model.safetensors", tensors).unwrap()
    }
}

fn attention(checkpoint: &mut Checkpoint, prefix: &str) {
    for part in ["conv_q", "conv_k", "conv_v", "conv_o"] {
        checkpoint.conv(&format!("{prefix}.{part}"), 192, 192, 1);
    }
}

fn stages(checkpoint: &mut Checkpoint, prefix: &str) {
    let channels = [256, 128, 64, 32, 16];
    let kernels = [16, 16, 4, 4, 4];
    let noise_kernels = [128, 16, 8, 4, 1];
    for stage in 0..5 {
        let input = 512 / 2_i32.pow(stage as u32);
        let name = format!("{prefix}ups.{stage}");
        checkpoint.add(&format!("{name}.weight"), &[channels[stage], kernels[stage], input]);
        checkpoint.add(&format!("{name}.bias"), &[channels[stage]]);
        checkpoint.conv(
            &format!("{prefix}noise_convs.{stage}"),
            1,
            channels[stage],
            noise_kernels[stage],
        );
        for (index, kernel) in [3, 7, 11].into_iter().enumerate() {
            let block = stage * 3 + index;
            for layer in 0..3 {
                for group in ["convs1", "convs2"] {
                    checkpoint.conv(
                        &format!("{prefix}resblocks.{block}.{group}.{layer}"),
                        channels[stage],
                        channels[stage],
                        kernel,
                    );
                }
            }
        }
    }
}

fn latent(checkpoint: &mut Checkpoint) {
    checkpoint.add("emb_g.weight", &[1, 768]);
    checkpoint.linear("emb_vol", 1, 192);
    checkpoint.conv("pre", 768, 192, 5);
    checkpoint.add("emb_uv.weight", &[2, 192]);
    checkpoint.add("enc_p.f0_emb.weight", &[256, 192]);
    for index in 0..6 {
        let prefix = format!("enc_p.enc_.attn_layers.{index}");
        attention(checkpoint, &prefix);
        checkpoint.add(&format!("{prefix}.emb_rel_k"), &[1, 9, 96]);
        checkpoint.add(&format!("{prefix}.emb_rel_v"), &[1, 9, 96]);
        checkpoint.gamma_norm(&format!("enc_p.enc_.norm_layers_1.{index}"), 192);
        checkpoint.conv(&format!("enc_p.enc_.ffn_layers.{index}.conv_1"), 192, 768, 3);
        checkpoint.conv(&format!("enc_p.enc_.ffn_layers.{index}.conv_2"), 768, 192, 3);
        checkpoint.gamma_norm(&format!("enc_p.enc_.norm_layers_2.{index}"), 192);
    }
    checkpoint.conv("enc_p.proj", 192, 384, 1);
    for flow in [0, 2, 4, 6] {
        let prefix = format!("flow.flows.{flow}");
        checkpoint.conv(&format!("{prefix}.pre"), 96, 192, 1);
        checkpoint.conv(&format!("{prefix}.enc.cond_layer"), 768, 1536, 1);
        for layer in 0..4 {
            checkpoint.conv(&format!("{prefix}.enc.in_layers.{layer}"), 192, 384, 5);
            let output = if layer < 3 { 384 } else { 192 };
            checkpoint.conv(&format!("{prefix}.enc.res_skip_layers.{layer}"), 192, output, 1);
        }
        checkpoint.conv(&format!("{prefix}.post"), 192, 96, 1);
    }
}

fn decoder(checkpoint: &mut Checkpoint) {
    checkpoint.conv("f0_decoder.prenet", 192, 192, 3);
    for index in 0..6 {
        let prefix = format!("f0_decoder.decoder.self_attn_layers.{index}");
        attention(checkpoint, &prefix);
        checkpoint.gamma_norm(&format!("f0_decoder.decoder.norm_layers_0.{index}"), 192);
        checkpoint.conv(&format!("f0_decoder.decoder.ffn_layers.{index}.conv_1"), 192, 768, 3);
        checkpoint.conv(&format!("f0_decoder.decoder.ffn_layers.{index}.conv_2"), 768, 192, 3);
        checkpoint.gamma_norm(&format!("f0_decoder.decoder.norm_layers_1.{index}"), 192);
    }
    checkpoint.conv("f0_decoder.proj", 192, 1, 1);
    checkpoint.conv("f0_decoder.f0_prenet", 1, 192, 3);
    checkpoint.conv("f0_decoder.cond", 768, 192, 1);
}

fn generator(checkpoint: &mut Checkpoint) {
    stages(checkpoint, "dec.");
    checkpoint.linear("dec.m_source.l_linear", 9, 1);
    checkpoint.conv("dec.conv_pre", 192, 512, 7);
    checkpoint.conv("dec.cond", 768, 512, 1);
    checkpoint.conv("dec.conv_post", 16, 1, 7);
}

fn gan() -> Checkpoint {
    let mut checkpoint = Checkpoint::new();
    latent(&mut checkpoint);
    decoder(&mut checkpoint);
    generator(&mut checkpoint);
    checkpoint.add("enc_q.pre.weight", &[1]);
    checkpoint.add("enc_q.pre.bias", &[1]);
    checkpoint
}

fn contentvec() -> Checkpoint {
    let mut checkpoint = Checkpoint::new();
    for (index, kernel) in [10, 3, 3, 3, 3, 2, 2].into_iter().enumerate() {
        let input = if index == 0 { 1 } else { 512 };
        checkpoint.add(
            &format!("feature_extractor.conv_layers.{index}.0.weight"),
            &[512, kernel, input],
        );
    }
    checkpoint.norm("feature_extractor.conv_layers.0.2", 512);
    checkpoint.norm("layer_norm", 512);
    checkpoint.linear("post_extract_proj", 512, 768);
    checkpoint.add("encoder.pos_conv.0.weight", &[768, 128, 48]);
    checkpoint.add("encoder.pos_conv.0.bias", &[768]);
    checkpoint.norm("encoder.layer_norm", 768);
    for index in 0..12 {
        let prefix = format!("encoder.layers.{index}");
        for part in ["q_proj", "k_proj", "v_proj", "out_proj"] {
            checkpoint.linear(&format!("{prefix}.self_attn.{part}"), 768, 768);
        }
        checkpoint.norm(&format!("{prefix}.self_attn_layer_norm"), 768);
        checkpoint.linear(&format!("{prefix}.fc1"), 768, 3072);
        checkpoint.linear(&format!("{prefix}.fc2"), 3072, 768);
        checkpoint.norm(&format!("{prefix}.final_layer_norm"), 768);
    }
    checkpoint.add("mask_emb", &[768]);
    checkpoint.add("label_embs_concat", &[504, 256]);
    checkpoint.add("final_proj.weight", &[256, 768]);
    checkpoint.add("final_proj.bias", &[256]);
    checkpoint
}

fn vocoder() -> Checkpoint {
    let mut checkpoint = Checkpoint::new();
    checkpoint.add("_buffers.mel_basis", &[1025, 128]);
    checkpoint.add("_buffers.hann_window", &[2048]);
    stages(&mut checkpoint, "");
    checkpoint.linear("m_source.l_linear", 9, 1);
    checkpoint.conv("conv_pre", 128, 512, 7);
    checkpoint.conv("conv_post", 16, 1, 7);
    checkpoint
}

fn diffusion(betas: i32) -> Checkpoint {
    let mut checkpoint = Checkpoint::new();
    checkpoint.linear("unit_embed", 768, 256);
    checkpoint.linear("f0_embed", 1, 256);
    checkpoint.linear("volume_embed", 1, 256);
    checkpoint.add("aug_shift_embed.weight", &[256, 1]);
    for name in [
        "alphas_cumprod",
        "alphas_cumprod_prev",
        "log_one_minus_alphas_cumprod",
        "sqrt_recip_alphas_cumprod",
        "sqrt_recipm1_alphas_cumprod",
        "posterior_variance",
        "posterior_log_variance_clipped",
        "posterior_mean_coef1",
        "posterior_mean_coef2",
        "betas",
        "sqrt_alphas_cumprod",
        "sqrt_one_minus_alphas_cumprod",
    ] {
        checkpoint.add(&format!("decoder.{name}"), &[betas]);
    }
    checkpoint.add("decoder.spec_min", &[1, 1, 128]);
    checkpoint.add("decoder.spec_max", &[1, 1, 128]);
    for index in 0..20 {
        let prefix = format!("decoder.denoise_fn.residual_layers.{index}");
        checkpoint.conv(&format!("{prefix}.dilated_conv"), 512, 1024, 3);
        checkpoint.linear(&format!("{prefix}.diffusion_projection"), 512, 512);
        checkpoint.conv(&format!("{prefix}.conditioner_projection"), 256, 1024, 1);
        checkpoint.conv(&format!("{prefix}.output_projection"), 512, 1024, 1);
    }
    checkpoint.conv("decoder.denoise_fn.input_projection", 128, 512, 1);
    checkpoint.linear("decoder.denoise_fn.mlp.0", 512, 2048);
    checkpoint.linear("decoder.denoise_fn.mlp.2", 2048, 512);
    checkpoint.conv("decoder.denoise_fn.skip_projection", 512, 512, 1);
    checkpoint.conv("decoder.denoise_fn.output_projection", 512, 128, 1);
    checkpoint
}

fn flow_matching() -> Checkpoint {
    let mut checkpoint = diffusion(1000);
    checkpoint.add("a_k", &[]);
    checkpoint.add("b_k", &[1]);
    checkpoint.add("t_k", &[1, 1]);
    checkpoint.add("_flow.alphas_cumprod_ascending", &[1000]);
    checkpoint.add("_flow.timesteps", &[]);
    checkpoint.add("_flow.t_eps", &[]);
    checkpoint.add("_flow.default_ode_steps", &[]);
    checkpoint
}

fn flow_values() -> FlowValues {
    FlowValues {
        t_k_matches: Some(true),
        timesteps: Some(1000),
        default_ode_steps: Some(50),
        t_eps: Some(single(0.01)),
        t_start: single(0.25),
        t_end: single(0.99),
    }
}

#[test]
fn tensors_are_taken_once() {
    let mut checkpoint = Checkpoint::new();
    checkpoint.add("a", &[2, 3]);
    checkpoint.add("b", &[4]);
    let mut weights = checkpoint.weights();
    assert_eq!(weights.first_dimension("a"), Some(2));
    assert_eq!(weights.first_dimension("c"), None);
    let tensor = weights.take("a").unwrap();
    assert_eq!((tensor.shape, tensor.slot), (vec![2, 3], 0));
    assert_eq!(weights.take("a").unwrap_err().message(), "missing tensor a");
    assert_eq!(weights.finish().unwrap_err().message(), "unused tensors: b");
}

#[test]
fn empty_checkpoints_are_refused() {
    let error = Weights::load("x.safetensors", Vec::new()).unwrap_err();
    assert_eq!(error.message(), "x.safetensors contains no tensors");
}

#[test]
fn later_tensors_replace_earlier_ones() {
    let tensor = |slot: usize| Tensor {
        name: "a".to_owned(),
        shape: vec![1],
        slot,
    };
    let mut weights = Weights::load("x", vec![tensor(3), tensor(5)]).unwrap();
    assert_eq!(weights.take("a").unwrap().slot, 5);
    assert!(weights.finish().is_ok());
}

#[test]
fn layers_of_every_kind() {
    let mut checkpoint = Checkpoint::new();
    checkpoint.linear("linear", 3, 4);
    checkpoint.add("bare.weight", &[4, 3]);
    checkpoint.add("grouped.weight", &[8, 5, 2]);
    checkpoint.add("grouped.bias", &[8]);
    checkpoint.add("plain.weight", &[8, 5, 4]);
    checkpoint.add("up.weight", &[2, 4, 8]);
    checkpoint.add("up.bias", &[2]);
    checkpoint.add("table.weight", &[10, 6]);
    checkpoint.gamma_norm("gamma", 6);
    checkpoint.norm("standard", 6);
    checkpoint.norm("groups", 6);
    let mut weights = checkpoint.weights();
    let layer = weights.linear("linear", 3, 4, true).unwrap();
    assert_eq!((layer.weight, layer.bias), (0, Some(1)));
    let layer = weights.linear("bare", 3, 4, false).unwrap();
    assert_eq!((layer.weight, layer.bias), (2, None));
    let layer = weights.conv1d("grouped", 4, 8, 5, 2, 1, 1, 2).unwrap();
    assert_eq!(layer.bias, Some(4));
    let layer = weights.conv1d_without_bias("plain", 4, 8, 5, 2, 1, 1, 1).unwrap();
    assert_eq!(layer.bias, None);
    let layer = weights.conv_transpose1d("up", 8, 2, 4, 1, 2).unwrap();
    assert!(matches!(layer.kind, Kind::ConvTranspose1d { stride: 2, .. }));
    assert_eq!(weights.embedding("table", 10, 6).unwrap().weight, 8);
    let layer = weights.layer_norm("gamma", 6).unwrap();
    assert_eq!((layer.weight, layer.bias), (9, Some(10)));
    let layer = weights.standard_layer_norm("standard", 6).unwrap();
    assert_eq!((layer.weight, layer.bias), (11, Some(12)));
    let layer = weights.group_norm("groups", 2, 6).unwrap();
    assert_eq!((layer.weight, layer.bias), (13, Some(14)));
    assert!(weights.finish().is_ok());
}

#[test]
fn layers_with_faults() {
    let mut checkpoint = Checkpoint::new();
    checkpoint.linear("linear", 3, 4);
    checkpoint.add("half.weight", &[4, 3]);
    let mut weights = checkpoint.weights();
    let error = weights.linear("linear", 4, 3, true).unwrap_err();
    assert_eq!(error.message(), "invalid linear.weight shape [4, 3]");
    let error = weights.linear("half", 3, 4, true).unwrap_err();
    assert_eq!(error.message(), "missing tensor half.bias");
    let error = weights.layer_norm("none", 3).unwrap_err();
    assert_eq!(error.message(), "missing tensor none.gamma");
    let error = weights.conv1d("none", 3, 3, 1, 0, 1, 1, 1).unwrap_err();
    assert_eq!(error.message(), "missing tensor none.weight");
}

#[test]
fn prefixes_are_discarded() {
    let mut checkpoint = Checkpoint::new();
    for name in ["enc_q.a", "other", "enc_q.b", "enc_p.a", "enc_q."] {
        checkpoint.add(name, &[1]);
    }
    let mut weights = checkpoint.weights();
    assert_eq!(weights.discard_prefix("enc_q."), 3);
    assert_eq!(weights.discard_prefix("enc_q."), 0);
    assert!(weights.take("other").is_ok());
    assert!(weights.take("enc_p.a").is_ok());
    assert!(weights.finish().is_ok());
}

#[test]
fn gan_checkpoint_is_used_up() {
    let checkpoint = gan();
    let model = GanModel::load(checkpoint.weights()).unwrap();
    assert_eq!(model.core.speaker_embedding.weight, checkpoint.slot("emb_g.weight"));
    assert_eq!(model.core.projection.weight, checkpoint.slot("enc_p.proj.weight"));
    assert_eq!(model.core.encoder.layers.len(), 6);
    let layer = model.core.encoder.layers[5];
    assert_eq!(layer.emb_rel_v.weight, checkpoint.slot("enc_p.enc_.attn_layers.5.emb_rel_v"));
    assert_eq!(layer.conv_2.bias, Some(checkpoint.slot("enc_p.enc_.ffn_layers.5.conv_2.bias")));
    assert_eq!(
        layer.feed_forward_norm.weight,
        checkpoint.slot("enc_p.enc_.norm_layers_2.5.gamma")
    );
    assert_eq!(model.core.flow.reverse_order(), [3, 2, 1, 0]);
    let coupling = &model.core.flow.couplings[3];
    assert_eq!(
        coupling.res_skip_layers[2].weight,
        checkpoint.slot("flow.flows.6.enc.res_skip_layers.2.weight")
    );
    assert_eq!(coupling.post.weight, checkpoint.slot("flow.flows.6.post.weight"));
    let causal = model.f0_decoder.decoder.layers[2];
    assert_eq!(
        causal.conv_1.weight,
        checkpoint.slot("f0_decoder.decoder.ffn_layers.2.conv_1.weight")
    );
    assert_eq!(model.f0_decoder.condition.weight, checkpoint.slot("f0_decoder.cond.weight"));
    let stages = &model.generator.stages;
    assert_eq!(stages.upsample_layers[4].weight, checkpoint.slot("dec.ups.4.weight"));
    assert_eq!(stages.noise_convs[1].weight, checkpoint.slot("dec.noise_convs.1.weight"));
    assert_eq!(
        stages.resblocks[14].convs_2[1].weight,
        checkpoint.slot("dec.resblocks.14.convs2.1.weight")
    );
    assert_eq!(model.generator.conv_post.weight, checkpoint.slot("dec.conv_post.weight"));
}

#[test]
fn generator_layers_have_their_numbers() {
    let mut checkpoint = Checkpoint::new();
    generator(&mut checkpoint);
    let mut weights = checkpoint.weights();
    let model = Generator::load(&mut weights).unwrap();
    assert!(weights.finish().is_ok());
    assert_eq!(
        model.stages.upsample_layers[1].kind,
        Kind::ConvTranspose1d {
            input_channels: 256,
            output_channels: 128,
            kernel_size: 16,
            padding: 4,
            stride: 8
        }
    );
    assert_eq!(
        model.stages.noise_convs[0].kind,
        Kind::Conv1d {
            input_channels: 1,
            output_channels: 256,
            kernel_size: 128,
            padding: 32,
            dilation: 1,
            stride: 64,
            groups: 1,
            bias: true
        }
    );
    assert_eq!(
        model.stages.resblocks[5].convs_1[2].kind,
        Kind::Conv1d {
            input_channels: 128,
            output_channels: 128,
            kernel_size: 11,
            padding: 25,
            dilation: 5,
            stride: 1,
            groups: 1,
            bias: true
        }
    );
}

#[test]
fn core_and_decoder_load_alone() {
    let mut checkpoint = Checkpoint::new();
    latent(&mut checkpoint);
    decoder(&mut checkpoint);
    let mut weights = checkpoint.weights();
    let core = GanCore::load(&mut weights).unwrap();
    assert_eq!(core.pre.weight, checkpoint.slot("pre.weight"));
    let decoder = F0Decoder::load(&mut weights).unwrap();
    assert_eq!(decoder.prenet.weight, checkpoint.slot("f0_decoder.prenet.weight"));
    assert!(weights.finish().is_ok());
}

#[test]
fn gan_checkpoint_faults() {
    let load = |checkpoint: Checkpoint| GanModel::load(checkpoint.weights()).unwrap_err().message();
    let training = gan().without("enc_q.pre.weight").without("enc_q.pre.bias");
    assert_eq!(load(training), "enc_q tensors missing");
    assert_eq!(load(gan().with("extra", &[1])), "unused tensors: extra");
    assert_eq!(
        load(gan().without("dec.ups.3.bias")),
        "missing tensor dec.ups.3.bias"
    );
    assert_eq!(
        load(gan().with("dec.cond.weight", &[512, 1, 767])),
        "invalid dec.cond.weight shape [512, 1, 767]"
    );
}

#[test]
fn contentvec_checkpoint_is_used_up() {
    let checkpoint = contentvec();
    let model = ContentVec::load(checkpoint.weights()).unwrap();
    assert_eq!(model.feature_convolutions.len(), 7);
    assert_eq!(model.encoder_layers.len(), 12);
    assert_eq!(
        model.encoder_layers[11].feed_forward_2.weight,
        checkpoint.slot("encoder.layers.11.fc2.weight")
    );
    assert_eq!(
        model.position_convolution.weight,
        checkpoint.slot("encoder.pos_conv.0.weight")
    );
    let load =
        |checkpoint: Checkpoint| ContentVec::load(checkpoint.weights()).unwrap_err().message();
    assert_eq!(load(contentvec().without("mask_emb")), "mask_emb missing");
    assert_eq!(
        load(contentvec().without("label_embs_concat")),
        "label_embs_concat missing"
    );
    assert_eq!(
        load(contentvec().without("final_proj.bias")),
        "final_proj tensors missing"
    );
    assert_eq!(load(contentvec().with("more", &[])), "unused tensors: more");
}

#[test]
fn vocoder_checkpoint_is_used_up() {
    let checkpoint = vocoder();
    let model = NsfHifiGan::load(checkpoint.weights()).unwrap();
    assert_eq!(model.mel.mel_basis, 0);
    assert_eq!(model.mel.hann_window, 1);
    assert_eq!(model.generator.conv_pre.weight, checkpoint.slot("conv_pre.weight"));
    assert_eq!(
        model.generator.stages.upsample_layers[0].weight,
        checkpoint.slot("ups.0.weight")
    );
    let load =
        |checkpoint: Checkpoint| NsfHifiGan::load(checkpoint.weights()).unwrap_err().message();
    assert_eq!(
        load(vocoder().with("_buffers.mel_basis", &[1024, 128])),
        "invalid mel basis shape [1024, 128]"
    );
    assert_eq!(
        load(vocoder().with("_buffers.hann_window", &[2048, 1])),
        "invalid Hann window shape [2048, 1]"
    );
    assert_eq!(
        load(vocoder().without("_buffers.hann_window")),
        "missing tensor _buffers.hann_window"
    );
    assert_eq!(load(vocoder().with("more", &[])), "unused tensors: more");
    let mut weights = vocoder().weights();
    assert!(MelSpectrogram::load(&mut weights).is_ok());
    assert!(VocoderGenerator::load(&mut weights).is_ok());
    assert!(weights.finish().is_ok());
}

#[test]
fn shallow_diffusion_checkpoint() {
    let checkpoint = diffusion(100);
    let refiner = ShallowDiffusionRefiner::load(checkpoint.weights()).unwrap();
    assert_eq!(refiner.model.schedule_length, Some(100));
    assert_eq!(refiner.model.schedule.betas.weight, checkpoint.slot("decoder.betas"));
    assert_eq!(refiner.model.denoiser.residual_layers.len(), 20);
    assert_eq!(
        refiner.model.denoiser.residual_layers[19].output_projection.weight,
        checkpoint.slot("decoder.denoise_fn.residual_layers.19.output_projection.weight")
    );
    let error = ShallowDiffusionRefiner::load(diffusion(100).with("x", &[]).weights()).unwrap_err();
    assert_eq!(error.message(), "unused tensors: x");
}

#[test]
fn solver_steps() {
    let refiner = ShallowDiffusionRefiner::load(diffusion(1000).weights()).unwrap();
    let plan = refiner.refine(100, 25).unwrap();
    assert_eq!(plan.timestep, 99);
    assert_eq!(plan.solver.steps, 4);
    let update = |older: i32, current: i32, end: i32, predict: bool| SecondUpdate {
        older,
        current,
        end,
        predict,
    };
    let expected = [
        update(0, 1, 2, true),
        update(1, 2, 3, true),
        update(2, 3, 4, false),
    ];
    assert_eq!(plan.solver.updates, expected);
    let evaluations = 2 + plan.solver.updates.iter().filter(|step| step.predict).count();
    assert_eq!(evaluations as i32, plan.solver.steps);
}

#[test]
fn solver_faults() {
    let refiner = ShallowDiffusionRefiner::load(diffusion(50).weights()).unwrap();
    assert!(matches!(refiner.refine(1, 1), Err(RefineError::DiffusionSteps)));
    assert!(matches!(refiner.refine(2, 0), Err(RefineError::DiffusionSpeedup)));
    assert!(matches!(refiner.refine(10, 6), Err(RefineError::SolverSteps)));
    let error = refiner.refine(100, 10).unwrap_err();
    assert_eq!(error.message(), "k_step 100 exceeds diffusion schedule length 50");
    let model = &refiner.model;
    assert!(matches!(model.sample_dpm_solver_pp(1, 1), Err(RefineError::KStep)));
    assert!(matches!(model.sample_dpm_solver_pp(2, 0), Err(RefineError::InferSpeedup)));
    assert_eq!(RefineError::KStep.message(), "k_step must be at least 2");
    assert_eq!(RefineError::InferSpeedup.message(), "infer_speedup must be positive");
    assert_eq!(
        RefineError::SolverSteps.message(),
        "DPM-Solver++ order 2 needs at least 2 steps"
    );
    assert_eq!(
        RefineError::DiffusionSteps.message(),
        "diffusion step count must be at least 2"
    );
    assert_eq!(RefineError::DiffusionSpeedup.message(), "diffusion speedup must be positive");
}

#[test]
fn schedule_neighbours() {
    assert_eq!(schedule_bracket(-1, 100), (0, 1));
    assert_eq!(schedule_bracket(42, 100), (42, 43));
    assert_eq!(schedule_bracket(99, 100), (98, 99));
}

#[test]
fn flow_matching_checkpoint() {
    let checkpoint = flow_matching();
    let refiner = FlowMatchingRefiner::load(checkpoint.weights(), flow_values()).unwrap();
    assert_eq!(refiner.t_k, checkpoint.slot("t_k"));
    assert_eq!(
        refiner.alphas_cumprod_ascending,
        checkpoint.slot("_flow.alphas_cumprod_ascending")
    );
    assert_eq!(refiner.t_eps, single(0.01));
    assert_eq!(refiner.model.schedule_length, Some(1000));
}

#[test]
fn flow_matching_checkpoint_faults() {
    let load = |checkpoint: Checkpoint, values: FlowValues| -> WeightsError {
        FlowMatchingRefiner::load(checkpoint.weights(), values).unwrap_err()
    };
    let shapes = |name: &str, shape: &[i32]| {
        load(flow_matching().with(name, shape), flow_values()).message()
    };
    assert_eq!(shapes("a_k", &[2]), "a_k must be scalar");
    assert_eq!(shapes("b_k", &[1, 0]), "b_k must be scalar");
    assert_eq!(shapes("t_k", &[3]), "t_k must be scalar");
    assert_eq!(
        shapes("_flow.alphas_cumprod_ascending", &[999]),
        "invalid ascending alpha schedule shape [999]"
    );
    assert_eq!(shapes("more", &[]), "unused tensors: more");
    assert_eq!(
        load(flow_matching().without("_flow.t_eps"), flow_values()).message(),
        "missing tensor _flow.t_eps"
    );
    let values = |change: fn(&mut FlowValues)| {
        let mut values = flow_values();
        change(&mut values);
        load(flow_matching(), values).message()
    };
    assert_eq!(
        values(|values| values.t_k_matches = Some(false)),
        "t_k does not match a_k / (a_k + b_k)"
    );
    assert_eq!(
        values(|values| values.timesteps = Some(999)),
        "Flow Matching checkpoint timesteps do not match the model"
    );
    assert_eq!(
        values(|values| values.default_ode_steps = Some(0)),
        "Flow Matching default ODE step count must be positive"
    );
    assert_eq!(
        values(|values| values.t_eps = Some(single(1.0))),
        "Flow Matching t_eps must be between zero and one"
    );
    assert_eq!(
        values(|values| values.t_eps = None),
        "Flow Matching t_eps must be between zero and one"
    );
}

#[test]
fn flow_matching_steps() {
    let refiner = FlowMatchingRefiner::load(flow_matching().weights(), flow_values()).unwrap();
    let plan = refiner.refine(&[1, 86, 128], 2).unwrap();
    assert_eq!(plan.state, [1, 1, 128, 86]);
    assert_eq!(plan.time_count, 3);
    let evaluation = |time: i32, next: Option<i32>, network: bool, step: bool| Evaluation {
        time,
        next,
        record_network: network,
        record_step: step,
    };
    let expected = [
        evaluation(0, Some(1), false, false),
        evaluation(1, Some(2), false, false),
        evaluation(2, None, false, false),
    ];
    assert_eq!(plan.evaluations, expected);
    let noise = FlowMatchingRefiner::noise_shape(&[1, 86, 128]);
    let traced = refiner.trace_with_noise(&[1, 86, 128], &noise, 2).unwrap();
    let expected = [
        evaluation(0, Some(1), true, true),
        evaluation(1, Some(2), false, true),
        evaluation(2, None, false, false),
    ];
    assert_eq!(traced.evaluations, expected);
}

#[test]
fn flow_matching_faults() {
    let refiner = FlowMatchingRefiner::load(flow_matching().weights(), flow_values()).unwrap();
    assert!(matches!(refiner.refine(&[1, 86, 128], 0), Err(RefineError::FlowSteps)));
    let error = refiner
        .refine_with_noise(&[1, 86, 128], &vec![1, 1, 86, 128], 5)
        .unwrap_err();
    assert_eq!(
        error.message(),
        "flow matching noise shape [1, 1, 86, 128] does not match normalized mel [1, 1, 128, 86]"
    );
    let mut values = flow_values();
    values.t_start = single(0.99);
    let late = FlowMatchingRefiner::load(flow_matching().weights(), values).unwrap();
    let error = late.refine(&[1, 86, 128], 5).unwrap_err();
    assert_eq!(error.message(), "Flow Matching end time must be greater than t_k");
    assert_eq!(
        RefineError::FlowSteps.message(),
        "flow matching step count must be positive"
    );
}

#[test]
fn levels_between_schedule_values() {
    let schedule: Vec<Single> = (0..1000).map(|i| single(i as f32 / 1000.0)).collect();
    let found = bracket(&schedule, single(0.5005));
    assert_eq!((found.lower, found.upper), (500, 501));
    assert_eq!((found.k_lower, found.k_upper), (499, 498));
    let lowest = bracket(&schedule, single(-1.0));
    assert_eq!((lowest.lower, lowest.upper), (0, 1));
    assert_eq!((lowest.k_lower, lowest.k_upper), (999, 998));
    let highest = bracket(&schedule, single(2.0));
    assert_eq!((highest.lower, highest.upper), (998, 999));
    assert_eq!((highest.k_lower, highest.k_upper), (1, 0));
}

#[test]
fn relative_positions_are_windowed() {
    let embeddings: Vec<i32> = (-WINDOW_SIZE..=WINDOW_SIZE).collect();
    for length in [1, 2, 4, 5, 6, 9] {
        let window = relative_embeddings(length);
        let mut padded = vec![100; window.padding as usize];
        padded.extend_from_slice(&embeddings);
        padded.extend(vec![100; window.padding as usize]);
        let kept = &padded[window.start as usize..window.end as usize];
        let expected: Vec<i32> = (1 - length..length)
            .map(|offset| if offset.abs() <= WINDOW_SIZE { offset } else { 100 })
            .collect();
        assert_eq!(kept, expected);
    }
}

#[test]
fn relative_tables_become_absolute() {
    for length in [1_i32, 2, 3, 7] {
        let layout = relative_to_absolute(length);
        let mut joined = Vec::new();
        for row in 0..length {
            for offset in 0..2 * length - 1 {
                joined.push((row, offset - (length - 1)));
            }
            joined.push((-1, 0));
        }
        assert_eq!(joined.len() as i32, layout.joined);
        joined.extend(vec![(-1, 0); layout.padding as usize]);
        assert_eq!(joined.len() as i32, layout.rows * layout.columns);
        for row in 0..layout.kept_rows {
            for column in layout.first_column..layout.columns {
                let entry = joined[(row * layout.columns + column) as usize];
                assert_eq!(entry, (row, column - layout.first_column - row));
            }
        }
    }
}

#[test]
fn absolute_tables_become_relative() {
    for length in [1_i32, 2, 3, 7] {
        let layout = absolute_to_relative(length);
        let mut joined = vec![(-1, -1); layout.padding as usize];
        for row in 0..length {
            for column in 0..length {
                joined.push((row, column));
            }
            joined.extend(vec![(-1, -1); layout.row_padding as usize]);
        }
        assert_eq!(joined.len() as i32, layout.joined + layout.padding);
        for row in 0..layout.rows {
            for column in layout.first_column..layout.columns {
                let entry = joined[(row * layout.columns + column) as usize];
                let position = row + (column - layout.first_column) - (length - 1);
                let expected = if 0 <= position && position < length {
                    (row, position)
                } else {
                    (-1, -1)
                };
                assert_eq!(entry, expected);
            }
        }
    }
}

#[test]
fn condition_channels_of_the_flow() {
    assert_eq!(ResidualCoupling::condition_span(0), (0, 384));
    assert_eq!(ResidualCoupling::condition_span(3), (1152, 1536));
}

#[test]
fn coarse_pitch_bins() {
    let bins = f0_to_coarse(&vec![-5, 0, 1, 2, 254, 255, 256, 1000, i32::MIN, i32::MAX]);
    assert_eq!(bins, [1, 1, 1, 2, 254, 255, 0, 0, 1, 0]);
}

#[test]
fn generator_shapes() {
    let source = SourceInputs::sample(2, 1024);
    assert_eq!(source.initial_phase, [2, 9]);
    assert_eq!(source.sine_noise, [2, 1024, 9]);
    assert_eq!(source.source_noise, [2, 1024, 1]);
    let plan = Generator::forward_with_source(&[1, 10, 192]).unwrap();
    assert_eq!(plan.stage_lengths, [80, 640, 1280, 2560, 5120]);
    assert_eq!(plan.output, [1, 5120, 1]);
    let error = Generator::forward_with_source(&[1, 10]).unwrap_err();
    assert_eq!(error, GeneratorError::LatentRank);
    assert_eq!(error.message(), "latent must have shape [batch, frames, channels]");
    assert_eq!(Generator::forward(&[1, 10, 192]).sine_noise, [1, 5120, 9]);
    assert_eq!(stage_lengths(1), [8, 64, 128, 256, 512]);
}

#[test]
fn gan_shapes() {
    let plan = GanModel::infer(&[1, 10, 768], true);
    assert_eq!(plan.mask, [1, 10, 1]);
    assert_eq!(plan.encoder_noise, [1, 10, 192]);
    assert!(plan.predict_f0);
    assert_eq!(plan.source.source_noise, [1, 5120, 1]);
}

#[test]
fn upsampled_and_source_lengths_agree() {
    let kernels = [128, 16, 8, 4, 1];
    let paddings = [32, 4, 2, 1, 0];
    let strides = [64, 8, 4, 2, 1];
    for frames in [1, 2, 86] {
        let lengths = stage_lengths(frames);
        for stage in 0..5 {
            let source = (frames * 512 + 2 * paddings[stage] - kernels[stage]) / strides[stage] + 1;
            assert_eq!(lengths[stage], source);
        }
    }
}

#[test]
fn content_frames() {
    let plan = ContentVec::encode(&[1, 16000]).unwrap();
    assert_eq!(plan.feature_lengths, [3199, 1599, 799, 399, 199, 99, 49]);
    assert_eq!(plan.frame_count, 49);
    assert_eq!(plan.pad_length, 1);
    let plan = ContentVec::encode(&[1, 400]).unwrap();
    assert_eq!(plan.frame_count, 1);
    let plan = ContentVec::encode(&[1, 720]).unwrap();
    assert_eq!((plan.frame_count, plan.pad_length), (2, 0));
    assert_eq!(ContentVec::encode(&[400]).unwrap_err(), ContentVecError::WavRank);
    assert_eq!(ContentVec::encode(&[1, 399]).unwrap_err(), ContentVecError::WavLength);
    assert_eq!(ContentVecError::WavRank.message(), "wav must have shape [batch, samples]");
    assert_eq!(ContentVecError::WavLength.message(), "wav is shorter than one feature frame");
}

#[test]
fn content_is_stretched() {
    assert_eq!(ContentVec::expand_nearest(&[1, 3, 768], 7).unwrap(), [0, 0, 0, 1, 1, 2, 2]);
    assert_eq!(
        ContentVec::expand_nearest(&[1, 3], 7).unwrap_err(),
        ContentVecError::FeatureRank
    );
    assert_eq!(
        ContentVec::expand_nearest(&[1, 3, 768], 0).unwrap_err(),
        ContentVecError::TargetLength
    );
    assert_eq!(
        ContentVecError::FeatureRank.message(),
        "features must have shape [batch, frames, channels]"
    );
    assert_eq!(ContentVecError::TargetLength.message(), "target length must be positive");
}

#[test]
fn spectrogram_frames() {
    for sample_count in [0, 1, 511, 512, 767, 768, 769, 1024, 5120, 44100] {
        let plan = MelSpectrogram::extract(&[1, sample_count], DataType::Float32).unwrap();
        assert_eq!(plan.frames.frame_count, (sample_count / 512).max(1));
        assert!(plan.frames.padded_length >= 2048);
        assert_eq!(plan.surroundings == Surroundings::Zeros, sample_count <= 768);
    }
    assert!(matches!(
        MelSpectrogram::extract(&[100], DataType::Float32),
        Err(VocoderError::AudioRank)
    ));
    assert!(matches!(
        MelSpectrogram::extract(&[1, 100], DataType::Float64),
        Err(VocoderError::AudioType {
            found: DataType::Float64
        })
    ));
    assert_eq!(VocoderError::AudioRank.message(), "audio must have shape [batch, samples]");
    let wrong = VocoderError::AudioType {
        found: DataType::Bfloat16,
    };
    assert_eq!(wrong.message(), "audio must use float32, got Bfloat16");
}

#[test]
fn vocoder_inputs() {
    let (source, lengths) = NsfHifiGan::infer(&[1, 10, 128], &[1, 10]).unwrap();
    assert_eq!(source.initial_phase, [1, 9]);
    assert_eq!(source.normal, [1, 5120, 9]);
    assert_eq!(lengths, [80, 640, 1280, 2560, 5120]);
    let run = |mel: &[i32], f0: &[i32], source: &VocoderSourceInputs| {
        NsfHifiGan::infer_with_source(mel, f0, source).unwrap_err().message()
    };
    let fitting = VocoderSourceInputs::sample(1, 5120);
    assert_eq!(
        run(&[1, 10, 80], &[1, 10], &fitting),
        "mel must have shape [batch, frames, 128]"
    );
    assert_eq!(
        run(&[1, 10, 128], &[1, 11], &fitting),
        "f0 shape [1, 11] does not match mel shape [1, 10, 128]"
    );
    let mut wrong = VocoderSourceInputs::sample(1, 5120);
    wrong.initial_phase = vec![1, 8];
    assert_eq!(
        run(&[1, 10, 128], &[1, 10], &wrong),
        "initial phase has invalid shape [1, 8]"
    );
    let short = VocoderSourceInputs::sample(1, 5119);
    assert_eq!(
        run(&[1, 10, 128], &[1, 10], &short),
        "source noise has invalid shape [1, 5119, 9]"
    );
    let error = VocoderGenerator::harmonic_source(&[10], &fitting).unwrap_err();
    assert_eq!(error.message(), "f0 must have shape [batch, frames]");
}

fn converter() -> SovitsSvc {
    SovitsSvc::load(
        gan().weights(),
        diffusion(1000).weights(),
        flow_matching().weights(),
        flow_values(),
        contentvec().weights(),
        vocoder().weights(),
    )
    .unwrap_or_else(|error| panic!("{}", error.message()))
}

#[test]
fn checkpoints_are_read_in_order() {
    let load = |gan: Checkpoint, contentvec: Checkpoint, vocoder: Checkpoint| {
        let result = SovitsSvc::load(
            gan.weights(),
            diffusion(1000).weights(),
            flow_matching().weights(),
            flow_values(),
            contentvec.weights(),
            vocoder.weights(),
        );
        match result {
            Ok(_) => String::new(),
            Err(error) => error.message(),
        }
    };
    assert_eq!(load(gan(), contentvec(), vocoder()), "");
    assert_eq!(
        load(
            gan().with("x", &[]),
            contentvec().with("y", &[]),
            vocoder().with("z", &[])
        ),
        "unused tensors: y"
    );
    assert_eq!(
        load(gan().with("x", &[]), contentvec(), vocoder().with("z", &[])),
        "unused tensors: x"
    );
    assert_eq!(
        load(gan(), contentvec(), vocoder().with("z", &[])),
        "unused tensors: z"
    );
}

#[test]
fn plan_of_a_recording_at_the_model_rate() {
    let mut model = converter();
    let options = InferenceOptions::default();
    let (plan, refinement) = model.infer(&[1, 44100], 44100, &options).unwrap();
    assert!(matches!(refinement, Refinement::Off));
    assert_eq!(plan.resampling, Resampling::Unchanged);
    assert_eq!(plan.resampled_length, 44100);
    assert_eq!(plan.frame_count, 86);
    assert_eq!(plan.used_length, 44032);
    assert_eq!(plan.pitch.target_length, 86);
    assert_eq!(plan.pitch.source_sample_count, 44032);
    assert_eq!(plan.encoder_length, 15976);
    assert_eq!(plan.content_frames, 49);
    assert_eq!(plan.volume.frames.frame_count, 86);
    assert_eq!(plan.output_length, 44032);
    assert!(!plan.adjust_loudness);
    assert!(!plan.second_encoding);
}

#[test]
fn plan_of_a_recording_at_another_rate() {
    let mut model = converter();
    let options = InferenceOptions {
        refiner: Refiner::ShallowDiffusion,
        second_encoding: true,
        loudness_envelope_adjustment: single(0.5),
        input_gain_db: -3,
        ..InferenceOptions::default()
    };
    let (plan, refinement) = model.infer(&[1, 48000], 48000, &options).unwrap();
    assert_eq!(plan.resampled_length, 44100);
    assert_eq!(plan.frame_count, 86);
    assert_eq!(plan.gain_db, -3);
    assert!(plan.adjust_loudness);
    assert!(plan.second_encoding);
    match refinement {
        Refinement::ShallowDiffusion {
            plan: shallow,
            noise,
        } => {
            assert_eq!(noise, [1, 1, 128, 86]);
            assert_eq!(shallow.timestep, 99);
            assert_eq!(shallow.solver.steps, 10);
            assert_eq!(shallow.solver.updates.len(), 9);
        }
        _ => panic!("another refinement"),
    }
    let (again, _) = model.infer(&[1, 48000], 48000, &options).unwrap();
    assert_eq!(again, plan);
    let flow = InferenceOptions {
        refiner: Refiner::FlowMatching,
        ..options
    };
    let (plan, refinement) = model.infer(&[1, 48000], 48000, &flow).unwrap();
    assert!(!plan.second_encoding);
    match refinement {
        Refinement::FlowMatching(flow) => {
            assert_eq!(flow.state, [1, 1, 128, 86]);
            assert_eq!(flow.time_count, 51);
            assert_eq!(flow.evaluations.len(), 51);
        }
        _ => panic!("another refinement"),
    }
}

#[test]
fn refinements_that_cannot_be_done() {
    let mut model = converter();
    let shallow = InferenceOptions {
        refiner: Refiner::ShallowDiffusion,
        diffusion_steps: 1001,
        ..InferenceOptions::default()
    };
    assert!(model.can_refine(&shallow));
    let fault = |model: &mut SovitsSvc, length: i32, options: &InferenceOptions| {
        model.infer(&[1, length], 44100, options).unwrap_err()
    };
    assert_eq!(
        fault(&mut model, 44100, &shallow),
        InferenceError::ScheduleLength {
            k_step: 1001,
            length: 1000
        }
    );
    assert_eq!(fault(&mut model, 511, &shallow), InferenceError::TooShort);
    let coarse = InferenceOptions {
        diffusion_steps: 19,
        ..shallow
    };
    assert_eq!(fault(&mut model, 44100, &coarse), InferenceError::SolverSteps);
    let flow = InferenceOptions {
        refiner: Refiner::FlowMatching,
        ..shallow
    };
    assert!(model.infer(&[1, 44100], 44100, &flow).is_ok());
    model.flow_matching.t_end = model.flow_matching.t_start;
    assert_eq!(fault(&mut model, 44100, &flow), InferenceError::EndTime);
    let endless = InferenceOptions {
        flow_matching_steps: i32::MAX,
        ..flow
    };
    assert!(!model.can_refine(&endless));
    model.shallow_diffusion.model.schedule_length = None;
    assert!(!model.can_refine(&shallow));
    assert!(model.can_refine(&InferenceOptions::default()));
}

#[test]
fn recordings_that_are_too_short() {
    let mut model = converter();
    let options = InferenceOptions::default();
    let mut fault = |shape: &[i32]| model.infer(shape, 44100, &options).err();
    assert_eq!(fault(&[1, 511]), Some(InferenceError::TooShort));
    assert_eq!(
        fault(&[1, 512]),
        Some(InferenceError::Content(ContentVecError::WavLength))
    );
    assert_eq!(
        fault(&[1, 1535]),
        Some(InferenceError::Content(ContentVecError::WavLength))
    );
    assert_eq!(fault(&[1, 1536]), None);
    assert_eq!(fault(&[512]), Some(InferenceError::InputShape));
}

#[test]
fn records_of_an_encoding() {
    for (samples, frames) in [(400, 1), (719, 1), (720, 2), (16000, 49)] {
        let (plan, trace) = ContentVec::encode_traced(&[2, samples]).unwrap();
        let plain = ContentVec::encode(&[2, samples]).unwrap();
        assert_eq!(plan.frame_count, frames);
        assert_eq!(plan.frame_count, (samples - 80) / 320);
        assert_eq!(plan.feature_lengths, plain.feature_lengths);
        assert_eq!(plan.pad_length, plain.pad_length);
        assert_eq!(plan.output, [2, frames, 768]);
        assert_eq!(plain.output, plan.output);
        assert_eq!(trace.len(), 31);
        for index in 0..7 {
            let length = plan.feature_lengths[index];
            for stage in [Stage::FeatureConvolution { index }, Stage::FeatureBlock { index }] {
                assert!(trace.contains(&Recorded {
                    stage,
                    length,
                    channels: 512
                }));
            }
        }
        let once = [
            (Stage::FeatureNorm, frames, 512),
            (Stage::FeatureProjection, frames, 768),
            (Stage::PositionConvolution, frames + 1, 768),
            (Stage::Position, frames, 768),
            (Stage::EncoderInputNorm, frames, 768),
        ];
        for (place, (stage, length, channels)) in once.into_iter().enumerate() {
            let expected = Recorded {
                stage,
                length,
                channels,
            };
            assert_eq!(trace[14 + place], expected);
        }
        for index in 0..12 {
            let expected = Recorded {
                stage: Stage::EncoderLayer { index },
                length: frames + frames % 2,
                channels: 768,
            };
            assert_eq!(trace[19 + index], expected);
        }
    }
    assert_eq!(ContentVec::encode_traced(&[1, 399]).unwrap_err(), ContentVecError::WavLength);
    assert_eq!(ContentVec::encode_traced(&[400]).unwrap_err(), ContentVecError::WavRank);
}

#[test]
fn noise_has_the_shape_of_the_state() {
    assert_eq!(ShallowDiffusionRefiner::noise_shape(&[2, 10, 128]), [2, 1, 128, 10]);
    assert_eq!(FlowMatchingRefiner::noise_shape(&[2, 10, 128]), [2, 1, 128, 10]);
}

#[test]
fn layers_of_the_encoder_keep_the_channels() {
    let model = ContentVec::load(contentvec().weights()).unwrap_or_else(|_| panic!("refused"));
    assert_eq!(model.feature_convolutions.len(), 7);
    assert_eq!(model.encoder_layers.len(), 12);
    let projection = Kind::Linear {
        input_dims: 512,
        output_dims: 768,
        bias: true,
    };
    assert_eq!(model.feature_projection.kind, projection);
    let last = Kind::Linear {
        input_dims: 3072,
        output_dims: 768,
        bias: true,
    };
    assert!(model.encoder_layers.iter().all(|layer| layer.feed_forward_2.kind == last));
}

#[test]
fn left_over_names_are_listed_once() {
    let mut checkpoint = Checkpoint::new();
    checkpoint.add("b", &[1]);
    checkpoint.add("a", &[1]);
    checkpoint.add("b", &[2]);
    match checkpoint.weights().finish() {
        Err(WeightsError::Unused { names }) => {
            let mut names = names;
            names.sort();
            assert_eq!(names, ["a", "b"]);
        }
        _ => panic!("tensors are left"),
    }
}

#[test]
fn a_shift_of_the_pitch_changes_no_plan() {
    let mut model = converter();
    let plain = InferenceOptions::default();
    let shifted = InferenceOptions {
        pitch_shift: single(12.0),
        ..plain
    };
    let (first, _) = model.infer(&[1, 48000], 48000, &plain).unwrap();
    let (second, _) = model.infer(&[1, 48000], 48000, &shifted).unwrap();
    assert_eq!(first, second);
}

#[test]
fn a_record_takes_the_same_steps() {
    let model = converter();
    let noise = vec![1, 1, 128, 10];
    let refiner = &model.flow_matching;
    let plain = refiner.refine_with_noise(&[1, 10, 128], &noise, 3).unwrap();
    let traced = refiner.trace_with_noise(&[1, 10, 128], &noise, 3).unwrap();
    assert_eq!(plain.time_count, traced.time_count);
    let steps = |list: &[Evaluation]| -> Vec<(i32, Option<i32>)> {
        list.iter().map(|step| (step.time, step.next)).collect()
    };
    assert_eq!(steps(&plain.evaluations), steps(&traced.evaluations));
    assert!(plain.evaluations.iter().all(|step| !step.record_step));
    assert!(traced.evaluations[0].record_network);
}
